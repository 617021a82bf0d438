//! WhiteoutTracker, EmittedPathTracker, HardLinkTracker.

use vstd::prelude::*;
use crate::canonical::{CanonicalTarHeader, CanonicalView};
use crate::paths::{
    byte_seqs, components, components_eq, copy_bytes, is_normal_piece, keep_normal,
    lemma_split_append_piece, law_distinct_children_differ, law_normal_names_append,
    normal_component_bytes, normal_names, path_components, same_path, slash, split_slash,
};
use crate::sorting::{LayerKey, Layered, lemma_stable_sort_map, stable_sort_by_layer, stable_sort_of};
use crate::text::{lossy_string, utf8_lossy};

verus! {

// ─── WhiteoutTracker ────────────────────────────────────────────────────────

/// The kind of whiteout recorded for a path, with the layer it came from.
#[derive(Clone, Copy, Debug)]
pub enum WhiteoutState {
    /// `.wh.<name>`: the path itself is deleted.
    Simple { layer_index: usize },
    /// `.wh..wh..opq`: the directory's older contents are hidden.
    Opaque { layer_index: usize },
}

impl WhiteoutState {
    pub open spec fn layer(self) -> usize {
        match self {
            WhiteoutState::Simple { layer_index } => layer_index,
            WhiteoutState::Opaque { layer_index } => layer_index,
        }
    }

    fn layer_index(&self) -> (r: usize)
        ensures
            r == self.layer(),
    {
        match self {
            WhiteoutState::Simple { layer_index } => *layer_index,
            WhiteoutState::Opaque { layer_index } => *layer_index,
        }
    }
}

/// The key under which a path's whiteout is kept: its `Normal` components,
/// each decoded lossily as UTF-8.
pub open spec fn whiteout_key(path: Seq<u8>) -> Seq<Seq<char>> {
    normal_names(path).map_values(|b: Seq<u8>| utf8_lossy(b))
}

pub open spec fn name_key(names: Seq<String>) -> Seq<Seq<char>> {
    names.map_values(|s: String| s@)
}

/// The whiteout recorded at `key.take(k)` (the path itself when `k` is the
/// whole length, else an ancestor) comes from a layer newer than
/// `current_layer`.
pub open spec fn hides_at(
    whiteouts: Map<Seq<Seq<char>>, WhiteoutState>,
    key: Seq<Seq<char>>,
    k: int,
    current_layer: usize,
) -> bool {
    &&& 0 <= k <= key.len()
    &&& whiteouts.contains_key(key.take(k))
    &&& current_layer < whiteouts[key.take(k)].layer()
}

/// An entry with the (non-empty) key `key` from layer `current_layer` is
/// hidden: a whiteout on the path itself or on one of its ancestors comes
/// from a newer layer.  Each whiteout hides on its own.
pub open spec fn suppresses(
    whiteouts: Map<Seq<Seq<char>>, WhiteoutState>,
    key: Seq<Seq<char>>,
    current_layer: usize,
) -> bool {
    &&& key.len() > 0
    &&& exists|k: int| #[trigger] hides_at(whiteouts, key, k, current_layer)
}

/// Two whiteout maps record whiteouts at the same paths, from the same
/// layers (their kinds may differ).
pub open spec fn same_layers(
    w1: Map<Seq<Seq<char>>, WhiteoutState>,
    w2: Map<Seq<Seq<char>>, WhiteoutState>,
) -> bool {
    forall|k: Seq<Seq<char>>|
        (#[trigger] w1.contains_key(k) <==> #[trigger] w2.contains_key(k)) && (w1.contains_key(k)
            ==> w1[k].layer() == w2[k].layer())
}

struct WhiteoutNode {
    state: Option<WhiteoutState>,
    children: Vec<(String, usize)>,
}

/// The whiteouts seen so far, as a trie over path components.  Nodes live in
/// one vector; node 0 is the root, and each node records the index of each
/// child under the child's name.  The children are a list searched by name
/// rather than a `HashMap`: vstd's specification of `HashMap` says what a
/// lookup returns only for keys that it knows hash and compare by their
/// view (integers and `bool`), and a child's key is its name, a `String`.
pub struct WhiteoutTracker {
    nodes: Vec<WhiteoutNode>,
    /// The path of components that leads to each node.
    keys: Ghost<Seq<Seq<Seq<char>>>>,
    /// The whiteout recorded at each path.
    whiteouts: Ghost<Map<Seq<Seq<char>>, WhiteoutState>>,
}

impl View for WhiteoutTracker {
    type V = Map<Seq<Seq<char>>, WhiteoutState>;

    closed spec fn view(&self) -> Map<Seq<Seq<char>>, WhiteoutState> {
        self.whiteouts@
    }
}

impl WhiteoutTracker {
    spec fn child(&self, i: int, c: int) -> (String, usize) {
        self.nodes@[i].children@[c]
    }

    spec fn has_child(&self, i: int, j: int) -> bool {
        exists|c: int| 0 <= c < self.nodes@[i].children@.len() && #[trigger] self.child(i, c).1 == j
    }

    spec fn has_key(&self, k: Seq<Seq<char>>) -> bool {
        exists|m: int| 0 <= m < self.keys@.len() && #[trigger] self.keys@[m] == k
    }

    /// The trie is well formed and holds exactly the recorded whiteouts.
    pub closed spec fn wf(&self) -> bool {
        let keys = self.keys@;
        let nodes = self.nodes@;
        &&& nodes.len() == keys.len()
        &&& keys.len() >= 1
        &&& keys[0] == Seq::<Seq<char>>::empty()
        &&& forall|i: int, j: int|
            0 <= i < keys.len() && 0 <= j < keys.len() && i != j ==> #[trigger] keys[i]
                != #[trigger] keys[j]
        &&& forall|i: int, c: int|
            0 <= i < nodes.len() && 0 <= c < nodes[i].children@.len() ==> {
                let e = #[trigger] self.child(i, c);
                &&& e.1 < keys.len()
                &&& keys[e.1 as int] == keys[i].push(e.0@)
            }
        &&& forall|i: int, j: int|
            0 <= i < keys.len() && 0 <= j < keys.len() && keys[j].len() > 0
                && #[trigger] keys[j].drop_last() == #[trigger] keys[i] ==> self.has_child(i, j)
        &&& forall|m: int, k: int|
            0 <= m < keys.len() && 0 <= k <= keys[m].len() ==> self.has_key(
                #[trigger] keys[m].take(k),
            )
        &&& forall|i: int|
            0 <= i < nodes.len() ==> {
                &&& (nodes[i].state is Some <==> self.whiteouts@.contains_key(#[trigger] keys[i]))
                &&& nodes[i].state is Some ==> self.whiteouts@[keys[i]] == nodes[i].state->0
            }
        &&& forall|k: Seq<Seq<char>>| #[trigger]
            self.whiteouts@.contains_key(k) ==> self.has_key(k)
    }

    /// A tracker with no whiteouts.
    pub fn new() -> (t: Self)
        ensures
            t.wf(),
            t@ == Map::<Seq<Seq<char>>, WhiteoutState>::empty(),
    {
        let mut nodes: Vec<WhiteoutNode> = Vec::new();
        nodes.push(WhiteoutNode { state: None, children: Vec::new() });
        let ghost root_keys = seq![Seq::<Seq<char>>::empty()];
        let ghost none = Map::<Seq<Seq<char>>, WhiteoutState>::empty();
        let t = WhiteoutTracker { nodes, keys: Ghost(root_keys), whiteouts: Ghost(none) };
        assert(t.has_key(Seq::<Seq<char>>::empty().take(0))) by {
            assert(t.keys@[0] == Seq::<Seq<char>>::empty().take(0));
        }
        t
    }

    fn find_child(&self, node: usize, name: &String) -> (r: Option<usize>)
        requires
            self.wf(),
            node < self.nodes@.len(),
        ensures
            match r {
                Some(j) => j < self.nodes@.len() && self.keys@[j as int] == self.keys@[node as int].push(
                    name@,
                ),
                None => forall|c: int|
                    0 <= c < self.nodes@[node as int].children@.len() ==> #[trigger] self.child(
                        node as int,
                        c,
                    ).0@ != name@,
            },
    {
        let children = &self.nodes[node].children;
        let mut c: usize = 0;
        while c < children.len()
            invariant
                self.wf(),
                node < self.nodes@.len(),
                children@ == self.nodes@[node as int].children@,
                c <= children@.len(),
                forall|c2: int| 0 <= c2 < c ==> #[trigger] self.child(node as int, c2).0@ != name@,
            decreases children@.len() - c,
        {
            if children[c].0 == *name {
                assert(self.child(node as int, c as int) == children@[c as int]);
                return Some(children[c].1);
            }
            assert(self.child(node as int, c as int) == children@[c as int]);
            c = c + 1;
        }
        None
    }

    /// Adding a child named `name` under `parent`, where `parent` has no
    /// child of that name yet, keeps the trie well formed.
    proof fn lemma_add_child(old_t: &Self, new_t: &Self, parent: int, name: String, new_idx: usize)
        requires
            new_idx == old_t.nodes@.len(),
            old_t.wf(),
            0 <= parent < old_t.nodes@.len(),
            forall|c: int|
                0 <= c < old_t.nodes@[parent].children@.len() ==> #[trigger] old_t.child(
                    parent,
                    c,
                ).0@ != name@,
            new_t.nodes@.len() == old_t.nodes@.len() + 1,
            forall|i: int|
                0 <= i < old_t.nodes@.len() && i != parent ==> #[trigger] new_t.nodes@[i]
                    == old_t.nodes@[i],
            new_t.nodes@[parent].state == old_t.nodes@[parent].state,
            new_t.nodes@[parent].children@ == old_t.nodes@[parent].children@.push(
                (name, new_idx),
            ),
            new_t.nodes@[old_t.nodes@.len() as int].state is None,
            new_t.nodes@[old_t.nodes@.len() as int].children@.len() == 0,
            new_t.keys@ == old_t.keys@.push(old_t.keys@[parent].push(name@)),
            new_t.whiteouts@ == old_t.whiteouts@,
        ensures
            new_t.wf(),
    {
        let ok = old_t.keys@;
        let nk = new_t.keys@;
        let n = ok.len();
        let fresh = ok[parent].push(name@);
        // The new path is not in the trie yet.
        assert forall|m: int| 0 <= m < n implies ok[m] != fresh by {
            if ok[m] == fresh {
                assert(ok[m].len() > 0);
                assert(ok[m].drop_last() =~= ok[parent]);
                assert(old_t.has_child(parent, m));
                let c = choose|c: int|
                    0 <= c < old_t.nodes@[parent].children@.len() && #[trigger] old_t.child(parent, c).1 == m;
                let e = old_t.child(parent, c);
                assert(ok[m] == ok[parent].push(e.0@));
                assert(ok[m].last() == e.0@);
            }
        }
        assert forall|i: int, j: int|
            0 <= i < nk.len() && 0 <= j < nk.len() && i != j implies #[trigger] nk[i] != #[trigger] nk[j] by {
            if i < n && j < n {
                assert(nk[i] == ok[i] && nk[j] == ok[j]);
            }
        }
        assert forall|i: int, c: int|
            0 <= i < new_t.nodes@.len() && 0 <= c < new_t.nodes@[i].children@.len() implies {
                let e = #[trigger] new_t.child(i, c);
                &&& e.1 < nk.len()
                &&& nk[e.1 as int] == nk[i].push(e.0@)
            } by {
            if i == parent {
                if c < old_t.nodes@[parent].children@.len() {
                    assert(new_t.child(i, c) == old_t.child(i, c));
                } else {
                    assert(new_t.child(i, c) == (name, new_idx));
                    assert(nk[parent] == ok[parent]);
                    assert(nk[n as int] == fresh);
                }
            } else if i < n {
                assert(new_t.child(i, c) == old_t.child(i, c));
            }
        }
        assert forall|i: int, j: int|
            0 <= i < nk.len() && 0 <= j < nk.len() && nk[j].len() > 0 && #[trigger] nk[j].drop_last()
                == #[trigger] nk[i] implies new_t.has_child(i, j) by {
            if j == n {
                assert(nk[j].drop_last() =~= ok[parent]);
                if i != parent {
                    if i < n {
                        assert(nk[i] == ok[i]);
                    } else {
                        assert(nk[i].len() == ok[parent].len() + 1);
                    }
                }
                let c = old_t.nodes@[parent].children@.len() as int;
                assert(new_t.child(parent, c).1 == j);
            } else {
                assert(nk[j] == ok[j]);
                if i == n {
                    assert(ok[j].drop_last().len() == ok[j].len() - 1);
                    assert(ok[parent].take(ok[parent].len() as int) =~= ok[parent]);
                    assert(old_t.has_key(ok[j].take(ok[j].len() - 1)));
                    let m = choose|m: int| 0 <= m < ok.len() && #[trigger] ok[m] == ok[j].take(ok[j].len() - 1);
                    assert(ok[j].take(ok[j].len() - 1) =~= ok[j].drop_last());
                    assert(ok[m] == fresh);
                }
                assert(nk[i] == ok[i]);
                assert(old_t.has_child(i, j));
                let c = choose|c: int|
                    0 <= c < old_t.nodes@[i].children@.len() && #[trigger] old_t.child(i, c).1 == j;
                assert(new_t.child(i, c) == old_t.child(i, c));
            }
        }
        assert forall|m: int, k: int|
            0 <= m < nk.len() && 0 <= k <= nk[m].len() implies new_t.has_key(#[trigger] nk[m].take(k)) by {
            if m == n {
                if k == nk[m].len() {
                    assert(nk[m].take(k) =~= nk[m]);
                } else {
                    assert(nk[m].take(k) =~= ok[parent].take(k));
                    assert(old_t.has_key(ok[parent].take(k)));
                    let m2 = choose|m2: int| 0 <= m2 < ok.len() && #[trigger] ok[m2] == ok[parent].take(k);
                    assert(nk[m2] == ok[m2]);
                }
            } else {
                assert(nk[m] == ok[m]);
                assert(old_t.has_key(ok[m].take(k)));
                let m2 = choose|m2: int| 0 <= m2 < ok.len() && #[trigger] ok[m2] == ok[m].take(k);
                assert(nk[m2] == ok[m2]);
            }
        }
        assert forall|i: int| 0 <= i < new_t.nodes@.len() implies {
            &&& (new_t.nodes@[i].state is Some <==> new_t.whiteouts@.contains_key(#[trigger] nk[i]))
            &&& new_t.nodes@[i].state is Some ==> new_t.whiteouts@[nk[i]] == new_t.nodes@[i].state->0
        } by {
            if i == n {
                if new_t.whiteouts@.contains_key(fresh) {
                    assert(old_t.has_key(fresh));
                }
            } else {
                assert(nk[i] == ok[i]);
            }
        }
        assert forall|k: Seq<Seq<char>>| #[trigger] new_t.whiteouts@.contains_key(k) implies new_t.has_key(k) by {
            assert(old_t.has_key(k));
            let m = choose|m: int| 0 <= m < ok.len() && #[trigger] ok[m] == k;
            assert(nk[m] == ok[m]);
        }
        assert(nk[0] == ok[0]);
    }

    /// Finds the node for `names`, creating it and any missing ancestors.
    fn walk_or_create(&mut self, names: &Vec<String>) -> (idx: usize)
        requires
            old(self).wf(),
        ensures
            final(self).wf(),
            final(self)@ == old(self)@,
            idx < final(self).nodes@.len(),
            final(self).keys@[idx as int] == name_key(names@),
    {
        let ghost key = name_key(names@);
        let ghost w0 = self@;
        let mut node: usize = 0;
        let mut d: usize = 0;
        assert(key.take(0) =~= Seq::<Seq<char>>::empty());
        while d < names.len()
            invariant
                self.wf(),
                self@ == w0,
                key == name_key(names@),
                node < self.nodes@.len(),
                d <= names@.len(),
                self.keys@[node as int] == key.take(d as int),
            decreases names@.len() - d,
        {
            assert(key.take(d as int + 1) =~= key.take(d as int).push(names@[d as int]@));
            match self.find_child(node, &names[d]) {
                Some(child) => {
                    node = child;
                },
                None => {
                    let ghost before = *self;
                    let new_idx = self.nodes.len();
                    let name = names[d].clone();
                    self.nodes.push(WhiteoutNode { state: None, children: Vec::new() });
                    self.nodes[node].children.push((name, new_idx));
                    proof {
                        self.keys@ = self.keys@.push(before.keys@[node as int].push(name@));
                        WhiteoutTracker::lemma_add_child(&before, self, node as int, name, new_idx);
                    }
                    node = new_idx;
                },
            }
            d = d + 1;
        }
        assert(key.take(d as int) =~= key);
        node
    }

    fn insert_state(&mut self, path: &[u8], state: WhiteoutState)
        requires
            old(self).wf(),
        ensures
            final(self).wf(),
            final(self)@ == old(self)@.insert(whiteout_key(path@), state),
    {
        let names = normal_components(path);
        let idx = self.walk_or_create(&names);
        let ghost before = *self;
        self.nodes[idx].state = Some(state);
        proof {
            self.whiteouts@ = self.whiteouts@.insert(whiteout_key(path@), state);
            let k = whiteout_key(path@);
            assert forall|i: int| 0 <= i < self.nodes@.len() implies {
                &&& (self.nodes@[i].state is Some <==> self.whiteouts@.contains_key(#[trigger] self.keys@[i]))
                &&& self.nodes@[i].state is Some ==> self.whiteouts@[self.keys@[i]] == self.nodes@[i].state->0
            } by {
                if i != idx {
                    assert(self.nodes@[i] == before.nodes@[i]);
                    assert(self.keys@[i] != self.keys@[idx as int]);
                }
            }
            assert forall|k2: Seq<Seq<char>>| #[trigger] self.whiteouts@.contains_key(k2) implies self.has_key(k2) by {
                if k2 == k {
                    assert(self.keys@[idx as int] == k2);
                } else {
                    assert(before.whiteouts@.contains_key(k2));
                    assert(before.has_key(k2));
                }
            }
            assert forall|i: int, c: int|
                0 <= i < self.nodes@.len() && 0 <= c < self.nodes@[i].children@.len() implies {
                    let e = #[trigger] self.child(i, c);
                    &&& e.1 < self.keys@.len()
                    &&& self.keys@[e.1 as int] == self.keys@[i].push(e.0@)
                } by {
                assert(self.child(i, c) == before.child(i, c));
            }
            assert forall|i: int, j: int|
                0 <= i < self.keys@.len() && 0 <= j < self.keys@.len() && self.keys@[j].len() > 0
                    && #[trigger] self.keys@[j].drop_last() == #[trigger] self.keys@[i] implies self.has_child(i, j) by {
                assert(before.has_child(i, j));
                let c = choose|c: int|
                    0 <= c < before.nodes@[i].children@.len() && #[trigger] before.child(i, c).1 == j;
                assert(self.child(i, c) == before.child(i, c));
            }
            assert forall|m: int, k3: int|
                0 <= m < self.keys@.len() && 0 <= k3 <= self.keys@[m].len() implies self.has_key(
                    #[trigger] self.keys@[m].take(k3),
                ) by {
                assert(before.has_key(before.keys@[m].take(k3)));
            }
        }
    }

    /// Mark a specific path as suppressed (simple `.wh.<name>` whiteout).
    pub fn insert_simple(&mut self, path: &[u8], layer_index: usize)
        requires
            old(self).wf(),
        ensures
            final(self).wf(),
            final(self)@ == whiteout_step(old(self)@, WhiteoutCall::Simple { path: path@, layer_index }),
    {
        self.insert_state(path, WhiteoutState::Simple { layer_index });
    }

    /// Mark a directory path as opaque (`.wh..wh..opq`).
    pub fn insert_opaque(&mut self, dir_path: &[u8], layer_index: usize)
        requires
            old(self).wf(),
        ensures
            final(self).wf(),
            final(self)@ == whiteout_step(
                old(self)@,
                WhiteoutCall::Opaque { dir_path: dir_path@, layer_index },
            ),
    {
        self.insert_state(dir_path, WhiteoutState::Opaque { layer_index });
    }

    /// No path that extends the key of `node` by a name that `node` has no
    /// child for is in the trie, so none is whited out.
    proof fn lemma_no_deeper(&self, node: int, key: Seq<Seq<char>>, d: int)
        requires
            self.wf(),
            0 <= node < self.nodes@.len(),
            0 <= d < key.len(),
            self.keys@[node] == key.take(d),
            forall|c: int|
                0 <= c < self.nodes@[node].children@.len() ==> #[trigger] self.child(node, c).0@
                    != key[d],
        ensures
            forall|k: int| d < k <= key.len() ==> !self.whiteouts@.contains_key(#[trigger] key.take(k)),
    {
        assert forall|k: int| d < k <= key.len() implies !self.whiteouts@.contains_key(
            #[trigger] key.take(k),
        ) by {
            if self.whiteouts@.contains_key(key.take(k)) {
                assert(self.has_key(key.take(k)));
                let m = choose|m: int| 0 <= m < self.keys@.len() && #[trigger] self.keys@[m] == key.take(k);
                assert(self.keys@[m].take(d + 1) =~= key.take(d + 1));
                assert(self.has_key(self.keys@[m].take(d + 1)));
                let m2 = choose|m2: int|
                    0 <= m2 < self.keys@.len() && #[trigger] self.keys@[m2] == self.keys@[m].take(d + 1);
                assert(self.keys@[m2].drop_last() =~= key.take(d));
                assert(self.has_child(node, m2));
                let c = choose|c: int|
                    0 <= c < self.nodes@[node].children@.len() && #[trigger] self.child(node, c).1 == m2;
                let e = self.child(node, c);
                assert(self.keys@[m2] == self.keys@[node].push(e.0@));
                assert(self.keys@[m2].last() == e.0@);
                assert(key.take(d + 1).last() == key[d]);
            }
        }
    }

    /// Returns true if `path` from `current_layer` should be suppressed:
    /// a whiteout on the path or on any of its ancestors comes from a newer
    /// layer.
    pub fn is_suppressed(&self, path: &[u8], current_layer: usize) -> (r: bool)
        requires
            self.wf(),
        ensures
            r == suppresses(self@, whiteout_key(path@), current_layer),
    {
        let names = normal_components(path);
        let ghost key = name_key(names@);
        if names.len() == 0 {
            return false;
        }
        let mut node: usize = 0;
        let mut d: usize = 0;
        assert(key.take(0) =~= Seq::<Seq<char>>::empty());
        while d < names.len()
            invariant
                self.wf(),
                key == name_key(names@),
                key == whiteout_key(path@),
                key.len() > 0,
                node < self.nodes@.len(),
                d <= names@.len(),
                self.keys@[node as int] == key.take(d as int),
                forall|j: int| 0 <= j < d ==> !#[trigger] hides_at(self@, key, j, current_layer),
            decreases names@.len() - d,
        {
            // A whiteout on this ancestor from a newer layer hides every
            // descendant from older layers.
            proof { self.lemma_node_state(node as int); }
            if let Some(state) = &self.nodes[node].state {
                if current_layer < state.layer_index() {
                    assert(hides_at(self@, key, d as int, current_layer));
                    return true;
                }
            }
            assert(!hides_at(self@, key, d as int, current_layer));
            match self.find_child(node, &names[d]) {
                Some(child) => {
                    assert(key.take(d as int + 1) =~= key.take(d as int).push(names@[d as int]@));
                    node = child;
                },
                None => {
                    proof {
                        assert forall|c: int|
                            0 <= c < self.nodes@[node as int].children@.len() implies #[trigger] self.child(
                                node as int,
                                c,
                            ).0@ != key[d as int] by {}
                        self.lemma_no_deeper(node as int, key, d as int);
                        assert forall|j: int| !#[trigger] hides_at(self@, key, j, current_layer) by {
                            if d < j <= key.len() {
                                assert(!self@.contains_key(key.take(j)));
                            }
                        }
                    }
                    return false;
                },
            }
            d = d + 1;
        }
        // The node of the path itself.
        proof { self.lemma_node_state(node as int); }
        if let Some(state) = &self.nodes[node].state {
            if current_layer < state.layer_index() {
                assert(hides_at(self@, key, d as int, current_layer));
                return true;
            }
        }
        assert forall|j: int| !#[trigger] hides_at(self@, key, j, current_layer) by {
            if j == d {
            }
        }
        false
    }

    proof fn lemma_node_state(&self, i: int)
        requires
            self.wf(),
            0 <= i < self.nodes@.len(),
        ensures
            self.nodes@[i].state is Some <==> self.whiteouts@.contains_key(self.keys@[i]),
            self.nodes@[i].state is Some ==> self.whiteouts@[self.keys@[i]] == self.nodes@[i].state->0,
    {
    }

}

/// A whiteout never hides an entry of its own layer or of a newer one: when
/// every recorded whiteout comes from `current_layer` or an older layer,
/// nothing from `current_layer` is suppressed.
pub proof fn law_same_or_newer_layer_never_suppressed(
    whiteouts: Map<Seq<Seq<char>>, WhiteoutState>,
    key: Seq<Seq<char>>,
    current_layer: usize,
)
    requires
        forall|k: Seq<Seq<char>>| #[trigger] whiteouts.contains_key(k) ==> whiteouts[k].layer() <= current_layer,
    ensures
        !suppresses(whiteouts, key, current_layer),
{
    assert forall|k: int| !#[trigger] hides_at(whiteouts, key, k, current_layer) by {
        if 0 <= k <= key.len() && whiteouts.contains_key(key.take(k)) {
        }
    }
}

/// A whiteout of a path hides the path and everything beneath it in every
/// layer older than its own, whatever the whiteouts of its ancestors say.
pub proof fn law_whiteout_hides_subtree(
    whiteouts: Map<Seq<Seq<char>>, WhiteoutState>,
    k: Seq<Seq<char>>,
    state: WhiteoutState,
    key: Seq<Seq<char>>,
    current_layer: usize,
)
    requires
        key.len() > 0,
        k.len() <= key.len(),
        key.take(k.len() as int) == k,
        current_layer < state.layer(),
    ensures
        suppresses(whiteouts.insert(k, state), key, current_layer),
{
    assert(hides_at(whiteouts.insert(k, state), key, k.len() as int, current_layer));
}

/// Recording a whiteout leaves every entry outside the whited-out subtree
/// as it was.
pub proof fn law_whiteout_leaves_others(
    whiteouts: Map<Seq<Seq<char>>, WhiteoutState>,
    k: Seq<Seq<char>>,
    state: WhiteoutState,
    key: Seq<Seq<char>>,
    current_layer: usize,
)
    requires
        !(k.len() <= key.len() && key.take(k.len() as int) == k),
    ensures
        suppresses(whiteouts.insert(k, state), key, current_layer) == suppresses(
            whiteouts,
            key,
            current_layer,
        ),
{
    let w = whiteouts.insert(k, state);
    assert forall|j: int| #[trigger] hides_at(w, key, j, current_layer) == hides_at(whiteouts, key, j, current_layer) by {
        if 0 <= j <= key.len() {
            if key.take(j) == k {
                assert(key.take(j).len() == j);
            }
        }
    }
    if suppresses(w, key, current_layer) {
        let j = choose|j: int| #[trigger] hides_at(w, key, j, current_layer);
        assert(hides_at(whiteouts, key, j, current_layer));
    }
    if suppresses(whiteouts, key, current_layer) {
        let j = choose|j: int| #[trigger] hides_at(whiteouts, key, j, current_layer);
        assert(hides_at(w, key, j, current_layer));
    }
}

/// Only the paths and layers of the whiteouts count, not their kinds: two
/// trackers whose whiteouts sit at the same paths with the same layers
/// suppress the same entries.
pub proof fn law_whiteout_kind_does_not_matter(
    w1: Map<Seq<Seq<char>>, WhiteoutState>,
    w2: Map<Seq<Seq<char>>, WhiteoutState>,
    key: Seq<Seq<char>>,
    current_layer: usize,
)
    requires
        same_layers(w1, w2),
    ensures
        suppresses(w1, key, current_layer) == suppresses(w2, key, current_layer),
{
    assert forall|j: int| #[trigger] hides_at(w1, key, j, current_layer) == hides_at(w2, key, j, current_layer) by {
        if 0 <= j <= key.len() {
            assert(w1.contains_key(key.take(j)) == w2.contains_key(key.take(j)));
        }
    }
    if suppresses(w1, key, current_layer) {
        let j = choose|j: int| #[trigger] hides_at(w1, key, j, current_layer);
        assert(hides_at(w2, key, j, current_layer));
    }
    if suppresses(w2, key, current_layer) {
        let j = choose|j: int| #[trigger] hides_at(w2, key, j, current_layer);
        assert(hides_at(w1, key, j, current_layer));
    }
}

/// Recording whiteouts of the same path and layer in two trackers that
/// agree on paths and layers keeps them agreeing, so an opaque and a simple
/// whiteout act alike under any later calls.
pub proof fn law_same_layers_kept_by_insert(
    w1: Map<Seq<Seq<char>>, WhiteoutState>,
    w2: Map<Seq<Seq<char>>, WhiteoutState>,
    k: Seq<Seq<char>>,
    s1: WhiteoutState,
    s2: WhiteoutState,
)
    requires
        same_layers(w1, w2),
        s1.layer() == s2.layer(),
    ensures
        same_layers(w1.insert(k, s1), w2.insert(k, s2)),
{
    assert forall|k2: Seq<Seq<char>>|
        (#[trigger] w1.insert(k, s1).contains_key(k2) <==> #[trigger] w2.insert(k, s2).contains_key(k2))
            && (w1.insert(k, s1).contains_key(k2) ==> w1.insert(k, s1)[k2].layer() == w2.insert(
            k,
            s2,
        )[k2].layer()) by {
        if k2 != k {
            assert(w1.contains_key(k2) == w2.contains_key(k2));
        }
    }
}

/// A call that records a whiteout in a `WhiteoutTracker`.
pub enum WhiteoutCall {
    /// `insert_simple(path, layer_index)`.
    Simple { path: Seq<u8>, layer_index: usize },
    /// `insert_opaque(dir_path, layer_index)`.
    Opaque { dir_path: Seq<u8>, layer_index: usize },
}

/// The whiteouts `w` after one call.
pub open spec fn whiteout_step(
    w: Map<Seq<Seq<char>>, WhiteoutState>,
    call: WhiteoutCall,
) -> Map<Seq<Seq<char>>, WhiteoutState> {
    match call {
        WhiteoutCall::Simple { path, layer_index } => w.insert(
            whiteout_key(path),
            WhiteoutState::Simple { layer_index },
        ),
        WhiteoutCall::Opaque { dir_path, layer_index } => w.insert(
            whiteout_key(dir_path),
            WhiteoutState::Opaque { layer_index },
        ),
    }
}

/// The whiteouts `w` after the calls `calls`, in order.
pub open spec fn whiteouts_after(
    w: Map<Seq<Seq<char>>, WhiteoutState>,
    calls: Seq<WhiteoutCall>,
) -> Map<Seq<Seq<char>>, WhiteoutState>
    decreases calls.len(),
{
    if calls.len() == 0 {
        w
    } else {
        whiteout_step(whiteouts_after(w, calls.drop_last()), calls.last())
    }
}

/// The layer a call records its whiteout from.
pub open spec fn call_layer(call: WhiteoutCall) -> usize {
    match call {
        WhiteoutCall::Simple { layer_index, .. } => layer_index,
        WhiteoutCall::Opaque { layer_index, .. } => layer_index,
    }
}

/// The key a call records its whiteout under.
pub open spec fn call_key(call: WhiteoutCall) -> Seq<Seq<char>> {
    match call {
        WhiteoutCall::Simple { path, .. } => whiteout_key(path),
        WhiteoutCall::Opaque { dir_path, .. } => whiteout_key(dir_path),
    }
}

proof fn lemma_same_layers_after(
    w1: Map<Seq<Seq<char>>, WhiteoutState>,
    w2: Map<Seq<Seq<char>>, WhiteoutState>,
    calls: Seq<WhiteoutCall>,
)
    requires
        same_layers(w1, w2),
    ensures
        same_layers(whiteouts_after(w1, calls), whiteouts_after(w2, calls)),
    decreases calls.len(),
{
    if calls.len() > 0 {
        lemma_same_layers_after(w1, w2, calls.drop_last());
        let c = calls.last();
        let s = match c {
            WhiteoutCall::Simple { layer_index, .. } => WhiteoutState::Simple { layer_index },
            WhiteoutCall::Opaque { layer_index, .. } => WhiteoutState::Opaque { layer_index },
        };
        law_same_layers_kept_by_insert(
            whiteouts_after(w1, calls.drop_last()),
            whiteouts_after(w2, calls.drop_last()),
            call_key(c),
            s,
            s,
        );
    }
}

/// An opaque and a simple whiteout of the same path from the same layer act
/// alike: two trackers in the same state, one given the opaque whiteout and
/// the other the simple one, then both the same further calls, suppress the
/// same entries from every layer.
pub proof fn law_opaque_and_simple_act_alike(
    w: Map<Seq<Seq<char>>, WhiteoutState>,
    dir_path: Seq<u8>,
    layer_index: usize,
    later: Seq<WhiteoutCall>,
    key: Seq<Seq<char>>,
    current_layer: usize,
)
    ensures
        suppresses(
            whiteouts_after(w, seq![WhiteoutCall::Opaque { dir_path, layer_index }] + later),
            key,
            current_layer,
        ) == suppresses(
            whiteouts_after(w, seq![WhiteoutCall::Simple { path: dir_path, layer_index }] + later),
            key,
            current_layer,
        ),
{
    let o = WhiteoutCall::Opaque { dir_path, layer_index };
    let s = WhiteoutCall::Simple { path: dir_path, layer_index };
    let wo = whiteout_step(w, o);
    let ws = whiteout_step(w, s);
    law_same_layers_kept_by_insert(
        w,
        w,
        whiteout_key(dir_path),
        WhiteoutState::Opaque { layer_index },
        WhiteoutState::Simple { layer_index },
    );
    lemma_after_prefix(w, o, later);
    lemma_after_prefix(w, s, later);
    lemma_same_layers_after(wo, ws, later);
    law_whiteout_kind_does_not_matter(
        whiteouts_after(wo, later),
        whiteouts_after(ws, later),
        key,
        current_layer,
    );
}

/// Running `first` and then `later` is running `later` from where `first`
/// left the whiteouts.
proof fn lemma_after_prefix(
    w: Map<Seq<Seq<char>>, WhiteoutState>,
    first: WhiteoutCall,
    later: Seq<WhiteoutCall>,
)
    ensures
        whiteouts_after(w, seq![first] + later) == whiteouts_after(whiteout_step(w, first), later),
    decreases later.len(),
{
    let calls = seq![first] + later;
    if later.len() == 0 {
        assert(calls.drop_last() =~= Seq::<WhiteoutCall>::empty());
        assert(calls.last() == first);
        assert(whiteouts_after(w, calls.drop_last()) == w);
    } else {
        assert(calls.drop_last() =~= seq![first] + later.drop_last());
        assert(calls.last() == later.last());
        lemma_after_prefix(w, first, later.drop_last());
    }
}

/// An opaque whiteout of a directory hides the directory entry itself from
/// every older layer, and only from those, when no whiteout sits on one of
/// its ancestors.
pub proof fn law_opaque_hides_directory_itself(
    w: Map<Seq<Seq<char>>, WhiteoutState>,
    dir_path: Seq<u8>,
    layer_index: usize,
    current_layer: usize,
)
    requires
        whiteout_key(dir_path).len() > 0,
        forall|j: int|
            0 <= j < whiteout_key(dir_path).len() ==> !#[trigger] w.contains_key(
                whiteout_key(dir_path).take(j),
            ),
    ensures
        suppresses(
            whiteout_step(w, WhiteoutCall::Opaque { dir_path, layer_index }),
            whiteout_key(dir_path),
            current_layer,
        ) <==> current_layer < layer_index,
{
    let key = whiteout_key(dir_path);
    let w2 = whiteout_step(w, WhiteoutCall::Opaque { dir_path, layer_index });
    assert(key.take(key.len() as int) =~= key);
    if current_layer < layer_index {
        assert(hides_at(w2, key, key.len() as int, current_layer));
    } else {
        assert forall|j: int| !#[trigger] hides_at(w2, key, j, current_layer) by {
            if 0 <= j < key.len() {
                assert(key.take(j).len() == j);
                assert(key.take(j) != key);
                assert(!w.contains_key(key.take(j)));
            }
        }
    }
}

/// The whiteout key of `p/name`, for a file name `name` (non-empty, no `/`,
/// neither `.` nor `..`, a leading dot allowed), is the key of `p` with the
/// name's text added.
pub proof fn law_whiteout_key_of_child(p: Seq<u8>, name: Seq<u8>)
    requires
        name.len() > 0,
        name != seq![0x2eu8],
        name != seq![0x2eu8, 0x2eu8],
        forall|i: int| 0 <= i < name.len() ==> name[i] != 0x2fu8,
    ensures
        whiteout_key(p + seq![0x2fu8] + name) == whiteout_key(p).push(utf8_lossy(name)),
{
    law_normal_names_append(p, name);
    assert(normal_names(p).push(name).map_values(|b: Seq<u8>| utf8_lossy(b)) =~= normal_names(
        p,
    ).map_values(|b: Seq<u8>| utf8_lossy(b)).push(utf8_lossy(name)));
}

/// A simple whiteout of `p/a` never hides a sibling `p/b` whose name reads
/// as other text: whether `p/b` is suppressed is what it was before.
pub proof fn law_simple_whiteout_spares_sibling(
    w: Map<Seq<Seq<char>>, WhiteoutState>,
    p: Seq<u8>,
    a: Seq<u8>,
    b: Seq<u8>,
    layer_index: usize,
    current_layer: usize,
)
    requires
        a.len() > 0,
        a != seq![0x2eu8],
        a != seq![0x2eu8, 0x2eu8],
        forall|i: int| 0 <= i < a.len() ==> a[i] != 0x2fu8,
        b.len() > 0,
        b != seq![0x2eu8],
        b != seq![0x2eu8, 0x2eu8],
        forall|i: int| 0 <= i < b.len() ==> b[i] != 0x2fu8,
        utf8_lossy(a) != utf8_lossy(b),
    ensures
        suppresses(
            whiteout_step(w, WhiteoutCall::Simple { path: p + seq![0x2fu8] + a, layer_index }),
            whiteout_key(p + seq![0x2fu8] + b),
            current_layer,
        ) == suppresses(w, whiteout_key(p + seq![0x2fu8] + b), current_layer),
{
    law_whiteout_key_of_child(p, a);
    law_whiteout_key_of_child(p, b);
    let ka = whiteout_key(p + seq![0x2fu8] + a);
    let kb = whiteout_key(p + seq![0x2fu8] + b);
    assert(ka.len() == kb.len());
    assert(kb.take(ka.len() as int) =~= kb);
    assert(ka.last() != kb.last());
    law_whiteout_leaves_others(w, ka, WhiteoutState::Simple { layer_index }, kb, current_layer);
}

/// The key of a child path `p/name` extends the key of `p` by `name`, so a
/// whiteout of `p` governs everything beneath it.
pub proof fn law_child_key_extends_parent(p: Seq<u8>, name: Seq<u8>)
    requires
        is_normal_piece(name),
        forall|i: int| 0 <= i < name.len() ==> name[i] != slash(),
    ensures
        whiteout_key(p + seq![slash()] + name) == whiteout_key(p).push(utf8_lossy(name)),
        whiteout_key(p + seq![slash()] + name).take(whiteout_key(p).len() as int) == whiteout_key(p),
{
    lemma_split_append_piece(p, name);
    let pieces = split_slash(p).push(name);
    assert(pieces.drop_last() =~= split_slash(p));
    assert(keep_normal(pieces) == keep_normal(split_slash(p)).push(name));
    assert(whiteout_key(p + seq![slash()] + name) =~= whiteout_key(p).push(utf8_lossy(name)));
    assert(whiteout_key(p).push(utf8_lossy(name)).take(whiteout_key(p).len() as int) =~= whiteout_key(p));
}

/// After `insert(p)`, `contains(q)` holds exactly when `q` names the same
/// path as `p` or was recorded before.
pub proof fn law_emitted_read_after_write(seen: Set<Seq<Seq<u8>>>, p: Seq<u8>, q: Seq<u8>)
    ensures
        seen.insert(path_components(p)).contains(path_components(q)) == (path_components(p)
            == path_components(q) || seen.contains(path_components(q))),
{
}

/// Emitting `p/a` does not make a sibling `p/b` with another name count as
/// emitted: after `insert` of the one, `contains` of the other is what it
/// was before.
pub proof fn law_emitted_sibling_not_seen(seen: Set<Seq<Seq<u8>>>, p: Seq<u8>, a: Seq<u8>, b: Seq<u8>)
    requires
        p.len() > 0,
        a.len() > 0,
        b.len() > 0,
        a != seq![0x2eu8],
        b != seq![0x2eu8],
        forall|i: int| 0 <= i < a.len() ==> a[i] != 0x2fu8,
        forall|i: int| 0 <= i < b.len() ==> b[i] != 0x2fu8,
        a != b,
    ensures
        seen.insert(path_components(p + seq![0x2fu8] + a)).contains(
            path_components(p + seq![0x2fu8] + b),
        ) == seen.contains(path_components(p + seq![0x2fu8] + b)),
{
    law_distinct_children_differ(p, a, b);
}

impl Default for WhiteoutTracker {
    fn default() -> (t: Self)
        ensures
            t.wf(),
            t@ == Map::<Seq<Seq<char>>, WhiteoutState>::empty(),
    {
        WhiteoutTracker::new()
    }
}

/// The `Normal` components of `path`, each converted lossily to text.
fn normal_components(path: &[u8]) -> (names: Vec<String>)
    ensures
        name_key(names@) == whiteout_key(path@),
{
    let raw = normal_component_bytes(path);
    let ghost raw_s = byte_seqs(raw@);
    let mut names: Vec<String> = Vec::new();
    let mut i: usize = 0;
    while i < raw.len()
        invariant
            raw_s == byte_seqs(raw@),
            raw_s == normal_names(path@),
            i <= raw@.len(),
            names@.len() == i,
            forall|j: int| 0 <= j < i ==> #[trigger] names@[j]@ == utf8_lossy(raw_s[j]),
        decreases raw@.len() - i,
    {
        let s = lossy_string(raw[i].as_slice());
        names.push(s);
        i = i + 1;
    }
    assert(name_key(names@) =~= whiteout_key(path@));
    names
}

// ─── EmittedPathTracker ─────────────────────────────────────────────────────

/// The set of paths written to the output so far.  Paths are compared as
/// `Path`s are, component by component; each is kept once, by its
/// component list.  The list is searched in order rather than hashed: vstd's
/// specification of `HashSet` says what `contains` returns only for keys
/// that it knows hash and compare by their view (integers and `bool`), not
/// for a list of byte strings.
#[derive(Debug)]
pub struct EmittedPathTracker {
    paths: Vec<Vec<Vec<u8>>>,
}

impl View for EmittedPathTracker {
    type V = Set<Seq<Seq<u8>>>;

    closed spec fn view(&self) -> Set<Seq<Seq<u8>>> {
        Set::new(|k: Seq<Seq<u8>>| exists|i: int| 0 <= i < self.paths@.len() && #[trigger] byte_seqs(self.paths@[i]@) == k)
    }
}

impl EmittedPathTracker {
    /// No path is kept twice.
    pub closed spec fn wf(&self) -> bool {
        forall|i: int, j: int|
            0 <= i < self.paths@.len() && 0 <= j < self.paths@.len() && i != j ==> byte_seqs(
                #[trigger] self.paths@[i]@,
            ) != byte_seqs(#[trigger] self.paths@[j]@)
    }

    /// A tracker that has seen no path.
    pub fn new() -> (t: Self)
        ensures
            t.wf(),
            t@ == Set::<Seq<Seq<u8>>>::empty(),
    {
        let t = EmittedPathTracker { paths: Vec::new() };
        assert(t@ =~= Set::<Seq<Seq<u8>>>::empty());
        t
    }

    fn position(&self, comps: &Vec<Vec<u8>>) -> (r: Option<usize>)
        ensures
            match r {
                Some(i) => i < self.paths@.len() && byte_seqs(self.paths@[i as int]@) == byte_seqs(comps@),
                None => !self@.contains(byte_seqs(comps@)),
            },
    {
        let mut i: usize = 0;
        while i < self.paths.len()
            invariant
                i <= self.paths@.len(),
                forall|j: int| 0 <= j < i ==> byte_seqs(#[trigger] self.paths@[j]@) != byte_seqs(comps@),
            decreases self.paths@.len() - i,
        {
            if components_eq(&self.paths[i], comps) {
                return Some(i);
            }
            i = i + 1;
        }
        None
    }

    /// Records that `path` was emitted.
    pub fn insert(&mut self, path: &[u8])
        requires
            old(self).wf(),
        ensures
            final(self).wf(),
            final(self)@ == old(self)@.insert(path_components(path@)),
    {
        let comps = components(path);
        match self.position(&comps) {
            Some(_) => {
                assert(self@ =~= old(self)@.insert(path_components(path@)));
            },
            None => {
                let ghost before = self.paths@;
                self.paths.push(comps);
                assert(self.paths@[before.len() as int] == comps);
                assert forall|k: Seq<Seq<u8>>| self@.contains(k) == old(self)@.insert(path_components(path@)).contains(k) by {
                    if self@.contains(k) {
                        let i = choose|i: int| 0 <= i < self.paths@.len() && #[trigger] byte_seqs(self.paths@[i]@) == k;
                        if i < before.len() {
                            assert(self.paths@[i] == before[i]);
                        }
                    }
                    if old(self)@.contains(k) {
                        let i = choose|i: int| 0 <= i < before.len() && #[trigger] byte_seqs(before[i]@) == k;
                        assert(self.paths@[i] == before[i]);
                    }
                }
                assert(self@ =~= old(self)@.insert(path_components(path@)));
                assert forall|i: int, j: int|
                    0 <= i < self.paths@.len() && 0 <= j < self.paths@.len() && i != j implies byte_seqs(
                        #[trigger] self.paths@[i]@,
                    ) != byte_seqs(#[trigger] self.paths@[j]@) by {
                    if i < before.len() && j < before.len() {
                        assert(self.paths@[i] == before[i] && self.paths@[j] == before[j]);
                    } else if i < before.len() {
                        assert(self.paths@[i] == before[i]);
                        assert(!old(self)@.contains(byte_seqs(comps@)));
                    } else if j < before.len() {
                        assert(self.paths@[j] == before[j]);
                        assert(!old(self)@.contains(byte_seqs(comps@)));
                    }
                }
            },
        }
    }

    /// Whether `path` was emitted.
    pub fn contains(&self, path: &[u8]) -> (r: bool)
        ensures
            r == self@.contains(path_components(path@)),
    {
        let comps = components(path);
        match self.position(&comps) {
            Some(_) => true,
            None => false,
        }
    }
}

impl Default for EmittedPathTracker {
    fn default() -> (t: Self)
        ensures
            t.wf(),
            t@ == Set::<Seq<Seq<u8>>>::empty(),
    {
        EmittedPathTracker::new()
    }
}

// ─── HardLinkTracker ────────────────────────────────────────────────────────

/// A normal deferred hardlink whose target will be present in the output tar.
/// Emitted after all layers are processed, once we know the target path was
/// written.
#[derive(Debug)]
pub struct HardLinkEntry {
    pub link_path: Vec<u8>,
    pub target_path: Vec<u8>,
    pub layer_index: usize,
    pub canonical: CanonicalTarHeader,
}

/// The contents of a `HardLinkEntry`.
pub struct HardLinkEntryView {
    pub link_path: Seq<u8>,
    pub target_path: Seq<u8>,
    pub layer_index: usize,
    pub canonical: CanonicalView,
}

impl View for HardLinkEntry {
    type V = HardLinkEntryView;

    open spec fn view(&self) -> HardLinkEntryView {
        HardLinkEntryView {
            link_path: self.link_path@,
            target_path: self.target_path@,
            layer_index: self.layer_index,
            canonical: self.canonical@,
        }
    }
}

impl LayerKey for HardLinkEntry {
    open spec fn layer_of(&self) -> usize {
        self.layer_index
    }
}

impl Layered for HardLinkEntry {
    fn layer(&self) -> (r: usize) {
        self.layer_index
    }
}

impl LayerKey for HardLinkEntryView {
    open spec fn layer_of(&self) -> usize {
        self.layer_index
    }
}

/// A hardlink whose target path was suppressed by a higher-layer whiteout.
/// The link path itself is live and must be promoted to a standalone regular
/// file.  `file_data` is populated either immediately (same-layer: the
/// suppressed regular file was already buffered) or lazily (cross-layer: filled
/// in when we later encounter the suppressed regular file in an older layer).
/// If `file_data` is still `None` after all layers are processed the promotion
/// is silently dropped (the target never existed — malformed image).
#[derive(Debug)]
pub struct PromotionEntry {
    pub link_path: Vec<u8>,
    pub target_path: Vec<u8>,
    pub layer_index: usize,
    /// `(file_canonical, file_bytes)` from the suppressed regular file that
    /// this hardlink originally pointed to.
    pub file_data: Option<(CanonicalTarHeader, Vec<u8>)>,
}

/// The contents of a `PromotionEntry`.
pub struct PromotionView {
    pub link_path: Seq<u8>,
    pub target_path: Seq<u8>,
    pub layer_index: usize,
    pub file_data: Option<(CanonicalView, Seq<u8>)>,
}

pub open spec fn file_data_view(d: Option<(CanonicalTarHeader, Vec<u8>)>) -> Option<(CanonicalView, Seq<u8>)> {
    match d {
        Some(cd) => Some((cd.0@, cd.1@)),
        None => None,
    }
}

impl View for PromotionEntry {
    type V = PromotionView;

    open spec fn view(&self) -> PromotionView {
        PromotionView {
            link_path: self.link_path@,
            target_path: self.target_path@,
            layer_index: self.layer_index,
            file_data: file_data_view(self.file_data),
        }
    }
}

impl LayerKey for PromotionEntry {
    open spec fn layer_of(&self) -> usize {
        self.layer_index
    }
}

impl Layered for PromotionEntry {
    fn layer(&self) -> (r: usize) {
        self.layer_index
    }
}

impl LayerKey for PromotionView {
    open spec fn layer_of(&self) -> usize {
        self.layer_index
    }
}

/// The promotion `p` after the suppressed regular file at `path` was seen
/// with header `c` and contents `d`: a promotion still waiting on that path
/// takes them; any other is unchanged.
pub open spec fn fulfil(p: PromotionView, path: Seq<u8>, c: CanonicalView, d: Seq<u8>) -> PromotionView {
    if path_components(p.target_path) == path_components(path) && p.file_data is None {
        PromotionView { file_data: Some((c, d)), ..p }
    } else {
        p
    }
}

/// What the buffer holds for the suppressed regular file at `target`.
pub open spec fn buffered_content(
    buffered: Map<Seq<Seq<u8>>, (CanonicalView, Seq<u8>)>,
    target: Seq<u8>,
) -> Option<(CanonicalView, Seq<u8>)> {
    if buffered.contains_key(path_components(target)) {
        Some(buffered[path_components(target)])
    } else {
        None
    }
}

/// Same layer: a suppressed regular file noted before a hard link to it
/// gives the link its header and contents at once.
pub proof fn law_same_layer_promotion_gets_content(
    buffered: Map<Seq<Seq<u8>>, (CanonicalView, Seq<u8>)>,
    path: Seq<u8>,
    canonical: CanonicalView,
    data: Seq<u8>,
    target: Seq<u8>,
)
    requires
        path_components(path) == path_components(target),
    ensures
        buffered_content(buffered.insert(path_components(path), (canonical, data)), target) == Some(
            (canonical, data),
        ),
{
}

/// Cross layer: a promotion that found nothing buffered is fulfilled by the
/// suppressed regular file noted later at its target.
pub proof fn law_cross_layer_promotion_fulfilled(
    p: PromotionView,
    path: Seq<u8>,
    canonical: CanonicalView,
    data: Seq<u8>,
)
    requires
        p.file_data is None,
        path_components(p.target_path) == path_components(path),
    ensures
        fulfil(p, path, canonical, data).file_data == Some((canonical, data)),
        fulfil(p, path, canonical, data).link_path == p.link_path,
        fulfil(p, path, canonical, data).layer_index == p.layer_index,
{
}

/// Content once attached to a promotion is never replaced, and a promotion
/// waiting on another path is left alone.
pub proof fn law_promotion_changes_only_when_waiting_on_path(
    p: PromotionView,
    path: Seq<u8>,
    canonical: CanonicalView,
    data: Seq<u8>,
)
    requires
        p.file_data is Some || path_components(p.target_path) != path_components(path),
    ensures
        fulfil(p, path, canonical, data) == p,
{
}

/// After the buffer is cleared at the end of a layer, nothing buffered
/// reaches a promotion.
pub proof fn law_end_layer_forgets_content(target: Seq<u8>)
    ensures
        buffered_content(Map::<Seq<Seq<u8>>, (CanonicalView, Seq<u8>)>::empty(), target) is None,
{
}

/// The contents of a `HardLinkTracker`.
pub struct HardLinkTrackerView {
    /// Deferred hard links, in the order recorded.
    pub deferred: Seq<HardLinkEntryView>,
    /// Promotions, in the order recorded.
    pub promotions: Seq<PromotionView>,
    /// Suppressed regular files of the current layer, by path.
    pub buffered: Map<Seq<Seq<u8>>, (CanonicalView, Seq<u8>)>,
}

/// A call that changes a `HardLinkTracker`, its arguments taken by view.
pub enum TrackerCall {
    /// `record(link_path, target_path, layer_index, canonical)`.
    Record { link_path: Seq<u8>, target_path: Seq<u8>, layer_index: usize, canonical: CanonicalView },
    /// `note_suppressed_file(path, canonical, data)`.
    NoteSuppressedFile { path: Seq<u8>, canonical: CanonicalView, data: Seq<u8> },
    /// `record_promotion(link_path, target_path, layer_index)`.
    RecordPromotion { link_path: Seq<u8>, target_path: Seq<u8>, layer_index: usize },
    /// `end_layer()`.
    EndLayer,
}

/// The tracker that `new` makes: nothing deferred, promoted or buffered.
pub open spec fn empty_tracker() -> HardLinkTrackerView {
    HardLinkTrackerView {
        deferred: Seq::empty(),
        promotions: Seq::empty(),
        buffered: Map::empty(),
    }
}

/// The tracker `v` after `end_layer`: the buffer is emptied; deferred links
/// and promotions (with any content already attached) stay as they are.
pub open spec fn after_end_layer(v: HardLinkTrackerView) -> HardLinkTrackerView {
    HardLinkTrackerView { buffered: Map::empty(), ..v }
}

/// The tracker `v` after one call.
pub open spec fn tracker_step(v: HardLinkTrackerView, call: TrackerCall) -> HardLinkTrackerView {
    match call {
        TrackerCall::Record { link_path, target_path, layer_index, canonical } => HardLinkTrackerView {
            deferred: v.deferred.push(
                HardLinkEntryView { link_path, target_path, layer_index, canonical },
            ),
            ..v
        },
        TrackerCall::NoteSuppressedFile { path, canonical, data } => HardLinkTrackerView {
            promotions: v.promotions.map_values(|p: PromotionView| fulfil(p, path, canonical, data)),
            buffered: v.buffered.insert(path_components(path), (canonical, data)),
            ..v
        },
        TrackerCall::RecordPromotion { link_path, target_path, layer_index } => HardLinkTrackerView {
            promotions: v.promotions.push(
                PromotionView {
                    link_path,
                    target_path,
                    layer_index,
                    file_data: buffered_content(v.buffered, target_path),
                },
            ),
            ..v
        },
        TrackerCall::EndLayer => after_end_layer(v),
    }
}

/// The tracker `v` after the calls `calls`, in order.
pub open spec fn tracker_after(v: HardLinkTrackerView, calls: Seq<TrackerCall>) -> HardLinkTrackerView
    decreases calls.len(),
{
    if calls.len() == 0 {
        v
    } else {
        tracker_step(tracker_after(v, calls.drop_last()), calls.last())
    }
}

/// The header and contents given by the latest `note_suppressed_file` at the
/// path of `target` among `calls`, looking no further back than the latest
/// `end_layer`.
pub open spec fn latest_note_for(calls: Seq<TrackerCall>, target: Seq<u8>) -> Option<
    (CanonicalView, Seq<u8>),
>
    decreases calls.len(),
{
    if calls.len() == 0 {
        None
    } else {
        match calls.last() {
            TrackerCall::EndLayer => None,
            TrackerCall::NoteSuppressedFile { path, canonical, data } => if path_components(path)
                == path_components(target) {
                Some((canonical, data))
            } else {
                latest_note_for(calls.drop_last(), target)
            },
            _ => latest_note_for(calls.drop_last(), target),
        }
    }
}

/// `calls` hold an `end_layer`.
pub open spec fn has_end_layer(calls: Seq<TrackerCall>) -> bool {
    exists|i: int| 0 <= i < calls.len() && #[trigger] calls[i] is EndLayer
}

/// What the buffer holds for a path follows the calls made since the tracker
/// was created, or since the latest `end_layer`: the latest
/// `note_suppressed_file` at that path, and nothing if there was none.
pub proof fn law_buffer_follows_history(v: HardLinkTrackerView, calls: Seq<TrackerCall>, target: Seq<u8>)
    requires
        v.buffered == Map::<Seq<Seq<u8>>, (CanonicalView, Seq<u8>)>::empty() || has_end_layer(calls),
    ensures
        buffered_content(tracker_after(v, calls).buffered, target) == latest_note_for(calls, target),
    decreases calls.len(),
{
    if calls.len() > 0 {
        let rest = calls.drop_last();
        if !(calls.last() is EndLayer) && has_end_layer(calls) {
            let i = choose|i: int| 0 <= i < calls.len() && #[trigger] calls[i] is EndLayer;
            assert(i < calls.len() - 1);
            assert(rest[i] is EndLayer);
        }
        if !(calls.last() is EndLayer) {
            law_buffer_follows_history(v, rest, target);
        }
    }
}

/// A promotion takes, at the time it is recorded, the header and contents of
/// the latest `note_suppressed_file` at its target since the tracker was
/// created or since the latest `end_layer`, and nothing if there was none.
pub proof fn law_promotion_takes_latest_note(
    v: HardLinkTrackerView,
    calls: Seq<TrackerCall>,
    link_path: Seq<u8>,
    target_path: Seq<u8>,
    layer_index: usize,
)
    requires
        v.buffered == Map::<Seq<Seq<u8>>, (CanonicalView, Seq<u8>)>::empty() || has_end_layer(calls),
    ensures
        ({
            let after = tracker_after(
                v,
                calls.push(TrackerCall::RecordPromotion { link_path, target_path, layer_index }),
            );
            &&& after.promotions.len() == tracker_after(v, calls).promotions.len() + 1
            &&& after.promotions.last() == (PromotionView {
                link_path,
                target_path,
                layer_index,
                file_data: latest_note_for(calls, target_path),
            })
        }),
{
    let call = TrackerCall::RecordPromotion { link_path, target_path, layer_index };
    assert(calls.push(call).drop_last() =~= calls);
    law_buffer_follows_history(v, calls, target_path);
}

/// `note_suppressed_file(path, canonical, data)` gives the header and
/// contents to every promotion still waiting on that path (same components,
/// no content yet), however many there are, and leaves every other one, and
/// the order and number of promotions, as they were.
pub proof fn law_note_fills_every_waiting_promotion(
    v: HardLinkTrackerView,
    path: Seq<u8>,
    canonical: CanonicalView,
    data: Seq<u8>,
    j: int,
)
    requires
        0 <= j < v.promotions.len(),
    ensures
        ({
            let after = tracker_step(v, TrackerCall::NoteSuppressedFile { path, canonical, data });
            let p = v.promotions[j];
            &&& after.promotions.len() == v.promotions.len()
            &&& after.deferred == v.deferred
            &&& (path_components(p.target_path) == path_components(path) && p.file_data is None)
                ==> after.promotions[j] == (PromotionView {
                link_path: p.link_path,
                target_path: p.target_path,
                layer_index: p.layer_index,
                file_data: Some((canonical, data)),
            })
            &&& !(path_components(p.target_path) == path_components(path) && p.file_data is None)
                ==> after.promotions[j] == p
        }),
{
}

/// `record(link_path, target_path, layer_index, canonical)` adds one deferred
/// link, last, holding exactly those four values, and changes nothing else.
pub proof fn law_record_keeps_its_arguments(
    v: HardLinkTrackerView,
    link_path: Seq<u8>,
    target_path: Seq<u8>,
    layer_index: usize,
    canonical: CanonicalView,
)
    ensures
        ({
            let after = tracker_step(
                v,
                TrackerCall::Record { link_path, target_path, layer_index, canonical },
            );
            &&& after.deferred.len() == v.deferred.len() + 1
            &&& after.deferred.drop_last() == v.deferred
            &&& after.deferred.last().link_path == link_path
            &&& after.deferred.last().target_path == target_path
            &&& after.deferred.last().layer_index == layer_index
            &&& after.deferred.last().canonical == canonical
            &&& after.promotions == v.promotions
            &&& after.buffered == v.buffered
        }),
{
    let after = tracker_step(v, TrackerCall::Record { link_path, target_path, layer_index, canonical });
    assert(after.deferred.drop_last() =~= v.deferred);
}

/// `end_layer` twice is `end_layer` once.
pub proof fn law_end_layer_idempotent(v: HardLinkTrackerView)
    ensures
        tracker_step(tracker_step(v, TrackerCall::EndLayer), TrackerCall::EndLayer) == tracker_step(
            v,
            TrackerCall::EndLayer,
        ),
{
}

struct BufferedFile {
    key: Vec<Vec<u8>>,
    canonical: CanonicalTarHeader,
    data: Vec<u8>,
}

spec fn buffer_key(b: Seq<BufferedFile>, i: int) -> Seq<Seq<u8>> {
    byte_seqs(b[i].key@)
}

spec fn buffer_wf(b: Seq<BufferedFile>, m: Map<Seq<Seq<u8>>, (CanonicalView, Seq<u8>)>) -> bool {
    &&& forall|i: int, j: int|
        0 <= i < b.len() && 0 <= j < b.len() && i != j ==> #[trigger] buffer_key(b, i)
            != #[trigger] buffer_key(b, j)
    &&& forall|i: int|
        0 <= i < b.len() ==> {
            &&& m.contains_key(#[trigger] buffer_key(b, i))
            &&& m[buffer_key(b, i)] == (b[i].canonical@, b[i].data@)
        }
    &&& forall|k: Seq<Seq<u8>>| #[trigger]
        m.contains_key(k) ==> exists|i: int| 0 <= i < b.len() && #[trigger] buffer_key(b, i) == k
}

/// The hard links met while the layers are processed newest-first.
pub struct HardLinkTracker {
    deferred: Vec<HardLinkEntry>,
    promotions: Vec<PromotionEntry>,
    /// Content buffered from suppressed regular files keyed by their normalised
    /// path (a list searched by path: vstd specifies `HashMap` lookups only
    /// for integer and `bool` keys, and the key here is a component list).
    /// Used to satisfy promotion entries:
    ///   - immediately, for same-layer hardlinks (regular file read before
    ///     hardlink within a single tar archive)
    ///   - retroactively, for cross-layer hardlinks (older layer processed after
    ///     the hardlink's layer because we traverse newest-first)
    suppressed_content: Vec<BufferedFile>,
    buffered: Ghost<Map<Seq<Seq<u8>>, (CanonicalView, Seq<u8>)>>,
}

impl View for HardLinkTracker {
    type V = HardLinkTrackerView;

    closed spec fn view(&self) -> HardLinkTrackerView {
        HardLinkTrackerView {
            deferred: self.deferred@.map_values(|e: HardLinkEntry| e@),
            promotions: self.promotions@.map_values(|e: PromotionEntry| e@),
            buffered: self.buffered@,
        }
    }
}

impl HardLinkTracker {
    /// Each buffered path is kept once, and the buffer holds what `buffered`
    /// says.
    pub closed spec fn wf(&self) -> bool {
        buffer_wf(self.suppressed_content@, self.buffered@)
    }

    /// A tracker with nothing recorded.
    pub fn new() -> (t: Self)
        ensures
            t.wf(),
            t@ == empty_tracker(),
    {
        let ghost none = Map::<Seq<Seq<u8>>, (CanonicalView, Seq<u8>)>::empty();
        let t = HardLinkTracker {
            deferred: Vec::new(),
            promotions: Vec::new(),
            suppressed_content: Vec::new(),
            buffered: Ghost(none),
        };
        assert(t@.deferred =~= Seq::<HardLinkEntryView>::empty());
        assert(t@.promotions =~= Seq::<PromotionView>::empty());
        t
    }

    /// The buffered file at the path with components `key`, if any.
    fn find_buffered(&self, key: &Vec<Vec<u8>>) -> (r: Option<usize>)
        requires
            self.wf(),
        ensures
            match r {
                Some(i) => i < self.suppressed_content@.len() && buffer_key(self.suppressed_content@, i as int) == byte_seqs(key@),
                None => !self.buffered@.contains_key(byte_seqs(key@)),
            },
    {
        let mut i: usize = 0;
        while i < self.suppressed_content.len()
            invariant
                self.wf(),
                i <= self.suppressed_content@.len(),
                forall|j: int| 0 <= j < i ==> #[trigger] buffer_key(self.suppressed_content@, j) != byte_seqs(key@),
            decreases self.suppressed_content@.len() - i,
        {
            if components_eq(&self.suppressed_content[i].key, key) {
                return Some(i);
            }
            i = i + 1;
        }
        None
    }

    /// Record a normal deferred hardlink whose target is not suppressed.
    pub fn record(
        &mut self,
        link_path: Vec<u8>,
        target_path: Vec<u8>,
        layer_index: usize,
        canonical: CanonicalTarHeader,
    )
        requires
            old(self).wf(),
        ensures
            final(self).wf(),
            final(self)@ == tracker_step(
                old(self)@,
                TrackerCall::Record {
                    link_path: link_path@,
                    target_path: target_path@,
                    layer_index,
                    canonical: canonical@,
                },
            ),
    {
        let entry = HardLinkEntry { link_path, target_path, layer_index, canonical };
        self.deferred.push(entry);
        assert(self@.deferred =~= old(self)@.deferred.push(entry@));
        assert(self.suppressed_content@ == old(self).suppressed_content@);
    }

    /// Buffer the header and full content of a suppressed regular file.
    ///
    /// Two things happen here:
    /// 1. Any pending `PromotionEntry` that is waiting on this path has its
    ///    `file_data` filled in (cross-layer scenario).
    /// 2. The content is stored in `suppressed_content` so that a hardlink
    ///    appearing later in the *same* layer can find it immediately
    ///    (same-layer scenario).
    pub fn note_suppressed_file(&mut self, path: Vec<u8>, canonical: CanonicalTarHeader, data: Vec<u8>)
        requires
            old(self).wf(),
        ensures
            final(self).wf(),
            final(self)@ == tracker_step(
                old(self)@,
                TrackerCall::NoteSuppressedFile { path: path@, canonical: canonical@, data: data@ },
            ),
    {
        let ghost old_p = old(self)@.promotions;
        // Fulfil any pending promotions that have been waiting for this path.
        let mut i: usize = 0;
        while i < self.promotions.len()
            invariant
                self.wf(),
                self.suppressed_content@ == old(self).suppressed_content@,
                self.buffered@ == old(self).buffered@,
                self.deferred@ == old(self).deferred@,
                old_p == old(self)@.promotions,
                self.promotions@.len() == old_p.len(),
                i <= old_p.len(),
                forall|j: int| 0 <= j < i ==> #[trigger] self.promotions@[j]@ == fulfil(old_p[j], path@, canonical@, data@),
                forall|j: int| i <= j < old_p.len() ==> #[trigger] self.promotions@[j]@ == old_p[j],
            decreases old_p.len() - i,
        {
            let matches = same_path(self.promotions[i].target_path.as_slice(), path.as_slice());
            if matches && self.promotions[i].file_data.is_none() {
                let c = canonical.clone();
                let d = copy_bytes(data.as_slice());
                let ghost before = self.promotions@;
                self.promotions[i].file_data = Some((c, d));
                assert forall|j: int| 0 <= j < old_p.len() && j != i implies #[trigger] self.promotions@[j] == before[j] by {}
                assert(self.promotions@[i as int].target_path == before[i as int].target_path);
                assert(self.promotions@[i as int].link_path == before[i as int].link_path);
                assert(self.promotions@[i as int].layer_index == before[i as int].layer_index);
                assert(old_p[i as int] == before[i as int]@);
                assert(path_components(old_p[i as int].target_path) == path_components(path@));
                assert(old_p[i as int].file_data is None);
                assert(self.promotions@[i as int]@.file_data == Some((canonical@, data@)));
                assert(self.promotions@[i as int]@ == fulfil(old_p[i as int], path@, canonical@, data@));
            } else {
                assert(self.promotions@[i as int]@ == old_p[i as int]);
                assert(!(path_components(old_p[i as int].target_path) == path_components(path@)) || !(old_p[i as int].file_data is None));
            }
            assert(self.promotions@[i as int]@ == fulfil(old_p[i as int], path@, canonical@, data@));
            i = i + 1;
        }
        assert(self@.promotions =~= old_p.map_values(|p: PromotionView| fulfil(p, path@, canonical@, data@)));
        self.buffer_insert(path, canonical, data);
    }

    fn buffer_insert(&mut self, path: Vec<u8>, canonical: CanonicalTarHeader, data: Vec<u8>)
        requires
            old(self).wf(),
        ensures
            final(self).wf(),
            final(self).deferred@ == old(self).deferred@,
            final(self).promotions@ == old(self).promotions@,
            final(self).buffered@ == old(self).buffered@.insert(path_components(path@), (canonical@, data@)),
    {
        let key = components(path.as_slice());
        let ghost k = byte_seqs(key@);
        let ghost v = (canonical@, data@);
        let ghost before = *self;
        match self.find_buffered(&key) {
            Some(i) => {
                self.suppressed_content[i].canonical = canonical;
                self.suppressed_content[i].data = data;
                proof {
                    self.buffered@ = self.buffered@.insert(k, v);
                    assert forall|j: int| 0 <= j < self.suppressed_content@.len() && j != i implies #[trigger] self.suppressed_content@[j]
                        == before.suppressed_content@[j] by {}
                    assert(buffer_key(self.suppressed_content@, i as int) == buffer_key(before.suppressed_content@, i as int));
                    assert forall|j: int| 0 <= j < self.suppressed_content@.len() implies #[trigger] buffer_key(self.suppressed_content@, j)
                        == buffer_key(before.suppressed_content@, j) by {}
                    assert forall|k2: Seq<Seq<u8>>| #[trigger]
                        self.buffered@.contains_key(k2) implies exists|j: int|
                        0 <= j < self.suppressed_content@.len() && #[trigger] buffer_key(self.suppressed_content@, j) == k2 by {
                        if k2 != k {
                            assert(before.buffered@.contains_key(k2));
                            let j = choose|j: int|
                                0 <= j < before.suppressed_content@.len() && #[trigger] buffer_key(before.suppressed_content@, j) == k2;
                            assert(buffer_key(self.suppressed_content@, j) == k2);
                        } else {
                            assert(buffer_key(self.suppressed_content@, i as int) == k2);
                        }
                    }
                }
            },
            None => {
                self.suppressed_content.push(BufferedFile { key, canonical, data });
                proof {
                    self.buffered@ = self.buffered@.insert(k, v);
                    let n = before.suppressed_content@.len() as int;
                    assert forall|j: int| 0 <= j < n implies #[trigger] buffer_key(self.suppressed_content@, j) == buffer_key(before.suppressed_content@, j) by {
                        assert(self.suppressed_content@[j] == before.suppressed_content@[j]);
                    }
                    assert(buffer_key(self.suppressed_content@, n) == k);
                    assert forall|j: int| 0 <= j < n implies #[trigger] buffer_key(before.suppressed_content@, j) != k by {
                        assert(before.buffered@.contains_key(buffer_key(before.suppressed_content@, j)));
                    }
                    assert forall|k2: Seq<Seq<u8>>| #[trigger]
                        self.buffered@.contains_key(k2) implies exists|j: int|
                        0 <= j < self.suppressed_content@.len() && #[trigger] buffer_key(self.suppressed_content@, j) == k2 by {
                        if k2 != k {
                            assert(before.buffered@.contains_key(k2));
                            let j = choose|j: int| 0 <= j < n && #[trigger] buffer_key(before.suppressed_content@, j) == k2;
                            assert(buffer_key(self.suppressed_content@, j) == k2);
                        }
                    }
                }
            },
        }
    }

    /// Record that `link_path` is a hardlink whose target (`target_path`) has
    /// been suppressed by a higher-layer whiteout.  `link_path` is alive and
    /// must be promoted to a regular file at emit time.
    pub fn record_promotion(&mut self, link_path: Vec<u8>, target_path: Vec<u8>, layer_index: usize)
        requires
            old(self).wf(),
        ensures
            final(self).wf(),
            final(self)@ == tracker_step(
                old(self)@,
                TrackerCall::RecordPromotion {
                    link_path: link_path@,
                    target_path: target_path@,
                    layer_index,
                },
            ),
    {
        // If we already buffered the suppressed content (same-layer case),
        // attach it immediately.
        let key = components(target_path.as_slice());
        let file_data = match self.find_buffered(&key) {
            Some(i) => Some(
                (self.suppressed_content[i].canonical.clone(), copy_bytes(self.suppressed_content[i].data.as_slice())),
            ),
            None => None,
        };
        let entry = PromotionEntry { link_path, target_path, layer_index, file_data };
        self.promotions.push(entry);
        assert(self@.promotions =~= old(self)@.promotions.push(entry@));
    }

    /// Discard the speculative content buffer accumulated during a single layer.
    ///
    /// The buffer is filled while a layer is processed so that
    /// `record_promotion` can attach file data immediately when a suppressed
    /// regular file and a hardlink to it appear in the same layer tar.  Once
    /// the layer is done, no future layer can contain a hardlink pointing
    /// at a file from the layer just processed — the TAR format requires the
    /// regular file to precede its hardlinks within the same archive, and an
    /// older layer cannot reference a path that only exists in a newer layer.
    /// The buffer therefore has no further use and should be cleared to avoid
    /// accumulating memory across layers.
    pub fn end_layer(&mut self)
        requires
            old(self).wf(),
        ensures
            final(self).wf(),
            final(self)@ == tracker_step(old(self)@, TrackerCall::EndLayer),
    {
        self.suppressed_content.clear();
        proof {
            self.buffered@ = Map::empty();
        }
    }

    /// Consume the tracker and return `(deferred, promotions)`, each sorted by
    /// ascending layer index.  Callers should emit `promotions` first so that
    /// any normal deferred hardlink that happens to target a promoted link path
    /// finds it already in the emitted-path set.
    pub fn drain_sorted(self) -> (r: (Vec<HardLinkEntry>, Vec<PromotionEntry>))
        ensures
            stable_sort_of(self@.deferred, r.0@.map_values(|e: HardLinkEntry| e@)),
            stable_sort_of(self@.promotions, r.1@.map_values(|e: PromotionEntry| e@)),
    {
        let ghost dv = self.deferred@;
        let ghost pv = self.promotions@;
        let deferred = stable_sort_by_layer(self.deferred);
        let promotions = stable_sort_by_layer(self.promotions);
        proof {
            lemma_stable_sort_map(dv, deferred@, |e: HardLinkEntry| e@);
            lemma_stable_sort_map(pv, promotions@, |e: PromotionEntry| e@);
        }
        (deferred, promotions)
    }
}

impl Default for HardLinkTracker {
    fn default() -> (t: Self)
        ensures
            t.wf(),
            t@ == empty_tracker(),
    {
        HardLinkTracker::new()
    }
}

} // verus!

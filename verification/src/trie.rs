use std::collections::HashMap;
use vstd::prelude::*;
use vstd::string::StringSliceAdditionalSpecFns;

verus! {

broadcast use vstd::std_specs::hash::group_hash_axioms;

/// The byte stored at the root, which no token spells.
pub const ROOT_BYTE: u8 = 0x22u8;

/// One position in the trie: the byte on its incoming edge, and whether a
/// token ends here.
#[derive(Debug)]
pub struct Node {
    pub id: u64,
    pub value: u8,
    pub is_terminal: bool,
}

impl Node {
    /// A node carrying `byte`, identified by `id`.
    pub fn new(byte: &u8, is_terminal: bool, id: u64) -> (node: Node)
        ensures
            node.id == id,
            node.value == *byte,
            node.is_terminal == is_terminal,
    {
        Node { id, value: *byte, is_terminal }
    }
}

/// What a trie stands for: the byte strings spelled from the root (the empty
/// one included), and those of them that end a token.
pub struct TrieModel {
    pub paths: Set<Seq<u8>>,
    pub terminals: Set<Seq<u8>>,
}

/// The bytes of each string of `ts`.
pub open spec fn token_bytes(ts: Seq<&str>) -> Seq<Seq<u8>> {
    ts.map_values(|s: &str| s.spec_bytes())
}

/// The number of bytes in all the strings of `ts` together.
pub open spec fn total_bytes(ts: Seq<&str>) -> nat
    decreases ts.len(),
{
    if ts.len() == 0 {
        0
    } else {
        ts[0].spec_bytes().len() + total_bytes(ts.drop_first())
    }
}

/// The prefixes of `t`, the empty one and `t` itself included.
pub open spec fn prefixes(t: Seq<u8>) -> Set<Seq<u8>> {
    Set::new(|s: Seq<u8>| s.len() <= t.len() && s == t.take(s.len() as int))
}

/// Whether `p` is a prefix of `x`.
pub open spec fn is_prefix_of(p: Seq<u8>, x: Seq<u8>) -> bool {
    p.len() <= x.len() && x.take(p.len() as int) == p
}

impl TrieModel {
    /// The model after inserting the token `t`: all its prefixes become
    /// paths, and `t` becomes a token unless it is empty.
    pub open spec fn with_token(self, t: Seq<u8>) -> TrieModel {
        TrieModel {
            paths: self.paths.union(prefixes(t)),
            terminals: if t.len() == 0 {
                self.terminals
            } else {
                self.terminals.insert(t)
            },
        }
    }

    /// The model after inserting the tokens `ts` in order.
    pub open spec fn with_tokens(self, ts: Seq<Seq<u8>>) -> TrieModel
        decreases ts.len(),
    {
        if ts.len() == 0 {
            self
        } else {
            self.with_tokens(ts.drop_last()).with_token(ts.last())
        }
    }

    /// Length of the longest prefix of `t` that is a path, searching from `j`.
    pub open spec fn match_len_from(self, t: Seq<u8>, j: int) -> int
        decreases t.len() - j,
    {
        if 0 <= j < t.len() && self.paths.contains(t.take(j + 1)) {
            self.match_len_from(t, j + 1)
        } else {
            j
        }
    }

    /// Length of the longest prefix of `t` that is a path.
    pub open spec fn matched_len(self, t: Seq<u8>) -> int {
        self.match_len_from(t, 0)
    }
}

/// A byte-prefix trie. Node ids are handed out in order of creation, the root
/// first; every edge leads from a node to a younger one.
pub struct Trie {
    root_id: u64,
    nodes: HashMap<u64, Node>,
    children: HashMap<u64, Vec<u64>>,
    next_id: u64,
    /// The bytes spelled by the edges from the root to each node.
    labels: Ghost<Map<u64, Seq<u8>>>,
    /// The node that each spelled byte string leads to.
    index: Ghost<Map<Seq<u8>, u64>>,
}

impl View for Trie {
    type V = TrieModel;

    closed spec fn view(&self) -> TrieModel {
        TrieModel {
            paths: self.index@.dom(),
            terminals: self.index@.dom().filter(|s: Seq<u8>| self.nodes@[self.index@[s]].is_terminal),
        }
    }
}

impl Trie {
    /// Number of nodes, the root included.
    pub closed spec fn spec_node_count(self) -> nat {
        self.next_id as nat
    }

    /// The id of the root.
    pub closed spec fn spec_root(self) -> u64 {
        self.root_id
    }

    /// The node stored under `id`.
    pub closed spec fn spec_node(self, id: u64) -> Node {
        self.nodes@[id]
    }

    /// Whether a node is stored under `id`.
    pub closed spec fn spec_has_node(self, id: u64) -> bool {
        self.nodes@.contains_key(id)
    }

    /// Whether `id` has an entry in the children table.
    pub closed spec fn spec_has_children(self, id: u64) -> bool {
        self.children@.contains_key(id)
    }

    /// The children of `id`, in the order they were attached.
    pub closed spec fn spec_children(self, id: u64) -> Seq<u64> {
        if self.children@.contains_key(id) {
            self.children@[id]@
        } else {
            Seq::empty()
        }
    }

    /// The bytes spelled from the root to the node `id`.
    pub closed spec fn spec_label(self, id: u64) -> Seq<u8> {
        self.labels@[id]
    }

    /// The node reached by spelling `s` from the root.
    pub closed spec fn spec_node_for(self, s: Seq<u8>) -> u64 {
        self.index@[s]
    }

    /// The bytes stored at the nodes of `path`.
    pub open spec fn spec_path_bytes(self, path: Seq<u64>) -> Seq<u8> {
        path.map_values(|id: u64| self.spec_node(id).value)
    }

    /// The id the next node will get.
    pub closed spec fn spec_next_id(self) -> u64 {
        self.next_id
    }

    /// The node table.
    pub closed spec fn spec_nodes(self) -> Map<u64, Node> {
        self.nodes@
    }

    /// The children table.
    pub closed spec fn spec_child_table(self) -> Map<u64, Seq<u64>> {
        self.children@.map_values(|v: Vec<u64>| v@)
    }

    /// The spelled strings recorded for the nodes, in both directions.
    pub closed spec fn spec_spelling(self) -> (Map<u64, Seq<u8>>, Map<Seq<u8>, u64>) {
        (self.labels@, self.index@)
    }

    /// The internal invariant of a trie.
    pub closed spec fn wf(self) -> bool {
        &&& self.wf_base()
        &&& self.inner_nodes_linked()
    }

    /// Every node but the root that ends no token has children.
    pub closed spec fn inner_nodes_linked(self) -> bool {
        forall|k: u64|
            0 < k < self.next_id && !(#[trigger] self.nodes@[k]).is_terminal ==> self.children@.contains_key(k)
    }

    /// The invariant, but for the requirement on inner nodes.
    pub closed spec fn wf_base(self) -> bool {
        let n = self.next_id;
        &&& self.root_id == 0
        &&& 0 < n
        &&& forall|k: u64| #[trigger] self.nodes@.contains_key(k) <==> k < n
        &&& forall|k: u64| #[trigger] self.labels@.contains_key(k) <==> k < n
        &&& forall|k: u64| k < n ==> (#[trigger] self.nodes@[k]).id == k
        &&& !self.nodes@[0].is_terminal
        &&& self.labels@[0] == Seq::<u8>::empty()
        &&& forall|k: u64|
            0 < k < n ==> (#[trigger] self.labels@[k]).len() > 0 && self.labels@[k].last()
                == self.nodes@[k].value
        &&& forall|k: u64| k < n ==> (#[trigger] self.labels@[k]).len() <= k
        &&& forall|k: u64|
            k < n ==> #[trigger] self.index@.contains_key(self.labels@[k]) && self.index@[self.labels@[k]] == k
        &&& forall|s: Seq<u8>|
            #[trigger] self.index@.contains_key(s) ==> self.index@[s] < n && self.labels@[self.index@[s]] == s
        &&& forall|s: Seq<u8>, j: int|
            #[trigger] self.index@.contains_key(s) && 0 <= j <= s.len() ==> self.index@.contains_key(
                #[trigger] s.take(j),
            )
        &&& forall|p: u64|
            #[trigger] self.children@.contains_key(p) ==> p < n && self.children@[p]@.len() > 0
                && self.children@[p]@.no_duplicates()
        &&& forall|p: u64, i: int|
            self.children@.contains_key(p) && 0 <= i < self.children@[p]@.len() ==> {
                let c = #[trigger] self.children@[p]@[i];
                &&& p < c < n
                &&& self.labels@[c] == self.labels@[p].push(self.nodes@[c].value)
            }
        &&& forall|s: Seq<u8>|
            #[trigger] self.index@.contains_key(s) && s.len() > 0 ==> self.children@.contains_key(
                self.index@[s.drop_last()],
            ) && self.children@[self.index@[s.drop_last()]]@.contains(self.index@[s])
    }

    /// The nodes met when spelling `t` from the root, as `bytes_to_path`
    /// returns them.
    pub closed spec fn spec_path_for(self, t: Seq<u8>) -> Option<Seq<u64>> {
        if t.len() > 0 && !self.children@.contains_key(self.root_id) {
            None
        } else {
            Some(Seq::new(self@.matched_len(t) as nat, |i: int| self.index@[t.take(i + 1)]))
        }
    }

    /// The search for the longest spelled prefix stops at `i` when every
    /// prefix up to `i` is spelled and the next one is not.
    proof fn lemma_match_len(self, t: Seq<u8>, i: int, j: int)
        requires
            0 <= j <= i <= t.len(),
            forall|k: int| 0 <= k <= i ==> self@.paths.contains(#[trigger] t.take(k)),
            i < t.len() ==> !self@.paths.contains(t.take(i + 1)),
        ensures
            self@.match_len_from(t, j) == i,
        decreases i - j,
    {
        if j < i {
            self.lemma_match_len(t, i, j + 1);
        }
    }

    /// What the search for the longest spelled prefix of `t` finds.
    proof fn lemma_match_props(self, t: Seq<u8>, j: int)
        requires
            self.wf(),
            0 <= j <= t.len(),
            self@.paths.contains(t.take(j)),
        ensures
            j <= self@.match_len_from(t, j) <= t.len(),
            forall|k: int| 0 <= k <= self@.match_len_from(t, j) ==> self@.paths.contains(#[trigger] t.take(k)),
            forall|k: int| self@.match_len_from(t, j) < k <= t.len() ==> !self@.paths.contains(#[trigger] t.take(k)),
        decreases t.len() - j,
    {
        let r = self@.match_len_from(t, j);
        if j < t.len() && self@.paths.contains(t.take(j + 1)) {
            self.lemma_match_props(t, j + 1);
        } else {
            assert forall|k: int| 0 <= k <= r implies self@.paths.contains(#[trigger] t.take(k)) by {
                assert(t.take(k) =~= t.take(j).take(k));
            }
        }
        assert forall|k: int| r < k <= t.len() implies !self@.paths.contains(#[trigger] t.take(k)) by {
            if self@.paths.contains(t.take(k)) {
                assert(t.take(k).take(r + 1) =~= t.take(r + 1));
            }
        }
    }

    /// Hanging a new node below `parent` keeps the invariant, when the string
    /// it spells was not spelled before.
    proof fn lemma_extend(pre: Trie, post: Trie, parent: u64, b: u8, term: bool)
        requires
            pre.wf_base(),
            parent < pre.next_id < u64::MAX,
            !pre.index@.contains_key(pre.labels@[parent].push(b)),
            post.root_id == pre.root_id,
            post.next_id == pre.next_id + 1,
            post.nodes@ == pre.nodes@.insert(pre.next_id, Node { id: pre.next_id, value: b, is_terminal: term }),
            post.spec_child_table() == pre.spec_child_table().insert(parent, pre.spec_children(parent).push(pre.next_id)),
            post.labels@ == pre.labels@.insert(pre.next_id, pre.labels@[parent].push(b)),
            post.index@ == pre.index@.insert(pre.labels@[parent].push(b), pre.next_id),
        ensures
            post.wf_base(),
            post.children@.contains_key(parent),
            forall|p: u64| #[trigger] pre.children@.contains_key(p) ==> post.children@.contains_key(p),
    {
        let n = pre.next_id;
        let ls = pre.labels@[parent].push(b);
        assert(pre.labels@[parent].len() <= parent);
        assert forall|p: u64| #[trigger] post.children@.contains_key(p) implies post.children@[p]@ == (if p == parent {
            pre.spec_children(parent).push(n)
        } else {
            pre.children@[p]@
        }) by {
            assert(post.spec_child_table().contains_key(p));
            assert(post.spec_child_table()[p] == post.children@[p]@);
            if p != parent {
                assert(pre.spec_child_table().contains_key(p));
                assert(pre.spec_child_table()[p] == pre.children@[p]@);
            }
        }
        assert forall|p: u64| #[trigger] pre.children@.contains_key(p) implies post.children@.contains_key(p) by {
            assert(post.spec_child_table().contains_key(p));
        }
        assert(post.spec_child_table().contains_key(parent));
        assert forall|p: u64| #[trigger] pre.children@.contains_key(p) implies !pre.children@[p]@.contains(n) by {
            if pre.children@[p]@.contains(n) {
                let i = choose|i: int| 0 <= i < pre.children@[p]@.len() && pre.children@[p]@[i] == n;
                assert(pre.children@[p]@[i] < n);
            }
        }
        assert forall|s: Seq<u8>, j: int|
            #[trigger] post.index@.contains_key(s) && 0 <= j <= s.len() implies post.index@.contains_key(
            #[trigger] s.take(j)) by {
            if s == ls {
                if j < s.len() {
                    assert(s.take(j) =~= pre.labels@[parent].take(j));
                    assert(pre.index@.contains_key(pre.labels@[parent]));
                } else {
                    assert(s.take(j) =~= s);
                }
            }
        }
        assert forall|s: Seq<u8>|
            #[trigger] post.index@.contains_key(s) && s.len() > 0 implies post.children@.contains_key(
            post.index@[s.drop_last()]) && post.children@[post.index@[s.drop_last()]]@.contains(post.index@[s]) by {
            if s == ls {
                assert(s.drop_last() =~= pre.labels@[parent]);
                assert(pre.index@.contains_key(pre.labels@[parent]));
                assert(post.children@[parent]@.last() == n);
            } else {
                assert(pre.index@.contains_key(s));
                let q = pre.index@[s.drop_last()];
                assert(pre.children@[q]@.contains(pre.index@[s]));
                if q == parent {
                    let i = choose|i: int| 0 <= i < pre.children@[q]@.len() && pre.children@[q]@[i] == pre.index@[s];
                    assert(post.children@[q]@[i] == pre.index@[s]);
                }
            }
        }
        assert forall|p: u64, i: int|
            post.children@.contains_key(p) && 0 <= i < post.children@[p]@.len() implies {
                let c = #[trigger] post.children@[p]@[i];
                &&& p < c < post.next_id
                &&& post.labels@[c] == post.labels@[p].push(post.nodes@[c].value)
            } by {
            if p == parent {
                if i < pre.spec_children(parent).len() {
                    assert(pre.children@.contains_key(parent));
                    assert(post.children@[p]@[i] == pre.children@[p]@[i]);
                }
            } else {
                assert(post.spec_child_table().contains_key(p));
                assert(pre.spec_child_table().contains_key(p));
            }
        }
        assert forall|p: u64| #[trigger] post.children@.contains_key(p) implies p < post.next_id
            && post.children@[p]@.len() > 0 && post.children@[p]@.no_duplicates() by {
            if p == parent {
                if pre.children@.contains_key(parent) {
                    assert(!pre.children@[parent]@.contains(n));
                }
            } else {
                assert(post.spec_child_table().contains_key(p));
                assert(pre.spec_child_table().contains_key(p));
            }
        }
        assert forall|k: u64| k < post.next_id implies #[trigger] post.index@.contains_key(post.labels@[k])
            && post.index@[post.labels@[k]] == k by {
            if k < n {
                assert(pre.index@.contains_key(pre.labels@[k]));
            }
        }
    }

    /// Appending `child` to the children of `parent` changes the children
    /// table at `parent` alone.
    proof fn lemma_child_table(pre: Trie, post: Trie, parent: u64, child: u64)
        requires
            post.spec_child_table() == pre.spec_child_table().insert(parent, pre.spec_children(parent).push(child)),
        ensures
            forall|k: u64| #[trigger] post.spec_has_children(k) == (pre.spec_has_children(k) || k == parent),
            forall|k: u64|
                #[trigger] post.spec_children(k) == (if k == parent {
                    pre.spec_children(parent).push(child)
                } else {
                    pre.spec_children(k)
                }),
    {
        assert forall|k: u64| #[trigger] post.spec_has_children(k) == (pre.spec_has_children(k) || k == parent) by {
            assert(post.spec_child_table().contains_key(k) == post.children@.contains_key(k));
            assert(pre.spec_child_table().contains_key(k) == pre.children@.contains_key(k));
        }
        assert forall|k: u64|
            #[trigger] post.spec_children(k) == (if k == parent {
                pre.spec_children(parent).push(child)
            } else {
                pre.spec_children(k)
            }) by {
            assert(post.spec_child_table().contains_key(k) == post.children@.contains_key(k));
            assert(pre.spec_child_table().contains_key(k) == pre.children@.contains_key(k));
            if post.children@.contains_key(k) {
                assert(post.spec_child_table()[k] == post.children@[k]@);
                if k != parent {
                    assert(pre.spec_child_table()[k] == pre.children@[k]@);
                }
            }
        }
    }

    /// The children table of `cur`, while the new bytes of a token are hung
    /// below `p0` in `pre`: old nodes other than `p0` keep their children,
    /// `p0` gets the first new node at the end of its children, and each new
    /// node but the last has the next as its only child.
    #[verifier::opaque]
    closed spec fn hung(pre: Trie, cur: Trie, p0: u64) -> bool {
        &&& forall|k: u64|
            k < pre.next_id && k != p0 ==> #[trigger] cur.spec_has_children(k) == pre.spec_has_children(k)
                && cur.spec_children(k) == pre.spec_children(k)
        &&& cur.next_id == pre.next_id ==> cur.spec_has_children(p0) == pre.spec_has_children(p0)
            && cur.spec_children(p0) == pre.spec_children(p0)
        &&& cur.next_id > pre.next_id ==> cur.spec_has_children(p0) && cur.spec_children(p0) == pre.spec_children(
            p0,
        ).push(pre.next_id)
        &&& forall|k: u64|
            pre.next_id <= k < cur.next_id ==> #[trigger] cur.spec_has_children(k) == (k + 1 < cur.next_id)
                && cur.spec_children(k) == (if k + 1 < cur.next_id {
                seq![(k + 1) as u64]
            } else {
                Seq::<u64>::empty()
            })
    }

    /// Before anything is hung, the children table is the old one.
    proof fn lemma_hung_start(pre: Trie, p0: u64)
        ensures
            Self::hung(pre, pre, p0),
    {
        reveal(Trie::hung);
    }

    /// Hanging `node` below `parent` while a token's new bytes are added
    /// keeps `hung`.
    proof fn lemma_hang_children(pre: Trie, before: Trie, mid: Trie, post: Trie, p0: u64, parent: u64)
        requires
            Self::hung(pre, before, p0),
            before.wf_base(),
            pre.next_id <= before.next_id,
            p0 < pre.next_id,
            before.next_id == pre.next_id ==> parent == p0,
            before.next_id > pre.next_id ==> parent + 1 == before.next_id,
            post.next_id == before.next_id + 1,
            forall|k: u64| #[trigger] mid.spec_children(k) == before.spec_children(k),
            forall|k: u64| #[trigger] mid.spec_has_children(k) == before.spec_has_children(k),
            forall|k: u64| #[trigger] post.spec_has_children(k) == (mid.spec_has_children(k) || k == parent),
            forall|k: u64|
                #[trigger] post.spec_children(k) == (if k == parent {
                    mid.spec_children(parent).push(before.next_id)
                } else {
                    mid.spec_children(k)
                }),
        ensures
            Self::hung(pre, post, p0),
    {
        reveal(Trie::hung);
        let node = before.next_id;
        assert(!before.children@.contains_key(node));
        assert(mid.spec_has_children(node) == before.spec_has_children(node));
        assert(mid.spec_children(node) == before.spec_children(node));
        assert forall|k: u64|
            k < pre.next_id && k != p0 implies #[trigger] post.spec_has_children(k) == pre.spec_has_children(k)
                && post.spec_children(k) == pre.spec_children(k) by {
            assert(mid.spec_has_children(k) == before.spec_has_children(k));
            assert(mid.spec_children(k) == before.spec_children(k));
            assert(before.spec_has_children(k) == pre.spec_has_children(k));
        }
        assert(mid.spec_has_children(p0) == before.spec_has_children(p0));
        assert(mid.spec_children(p0) == before.spec_children(p0));
        if before.next_id > pre.next_id {
            assert(before.spec_has_children(parent) == (parent + 1 < node));
            assert(mid.spec_has_children(parent) == (parent + 1 < node));
            assert(mid.spec_children(parent) == before.spec_children(parent));
            assert(mid.spec_children(parent) == Seq::<u64>::empty());
            assert(Seq::<u64>::empty().push(node) =~= seq![node]);
        }
        assert forall|k: u64|
            pre.next_id <= k < post.next_id implies #[trigger] post.spec_has_children(k) == (k + 1 < post.next_id)
                && post.spec_children(k) == (if k + 1 < post.next_id {
                seq![(k + 1) as u64]
            } else {
                Seq::<u64>::empty()
            }) by {
            assert(mid.spec_has_children(k) == before.spec_has_children(k));
            assert(mid.spec_children(k) == before.spec_children(k));
            if k < node {
                assert(before.spec_has_children(k) == (k + 1 < node));
            }
        }
    }

    /// The children table once a token's new bytes are hung: as `add_token`
    /// states it.
    proof fn lemma_hung_children(pre: Trie, post: Trie, p0: u64, grows: bool)
        requires
            Self::hung(pre, post, p0),
            pre.next_id <= post.next_id,
            grows == (post.next_id > pre.next_id),
        ensures
            forall|k: u64|
                k < pre.next_id ==> {
                    let g = grows && k == p0;
                    &&& #[trigger] post.spec_has_children(k) == (pre.spec_has_children(k) || g)
                    &&& post.spec_children(k) == (if g {
                        pre.spec_children(k).push(pre.next_id)
                    } else {
                        pre.spec_children(k)
                    })
                },
            forall|k: u64|
                pre.next_id <= k < post.next_id ==> #[trigger] post.spec_has_children(k) == (k + 1 < post.next_id)
                    && post.spec_children(k) == (if k + 1 < post.next_id {
                    seq![(k + 1) as u64]
                } else {
                    Seq::<u64>::empty()
                }),
    {
        reveal(Trie::hung);
        assert forall|k: u64| k < pre.next_id implies {
            let g = grows && k == p0;
            &&& #[trigger] post.spec_has_children(k) == (pre.spec_has_children(k) || g)
            &&& post.spec_children(k) == (if g {
                pre.spec_children(k).push(pre.next_id)
            } else {
                pre.spec_children(k)
            })
        } by {
            if k != p0 {
                assert(post.spec_has_children(k) == pre.spec_has_children(k));
            } else if grows {
                assert(post.spec_has_children(p0));
            } else {
                assert(post.next_id == pre.next_id);
            }
        }
    }

    /// The nodes that hold the new bytes of a token spell the token up to
    /// their byte, and the last alone ends the token.
    proof fn lemma_new_nodes_shape(pre: Trie, post: Trie, t: Seq<u8>, m: int)
        requires
            post.wf_base(),
            0 < pre.next_id <= post.next_id,
            0 <= m <= t.len(),
            post.next_id - pre.next_id == t.len() - m,
            forall|k: u64| pre.next_id <= k < post.next_id ==> #[trigger] post.labels@[k] == t.take(k - pre.next_id + m + 1),
            forall|k: u64|
                pre.next_id <= k < post.next_id ==> (#[trigger] post.nodes@[k]).is_terminal == (k - pre.next_id + 1
                    == t.len() - m),
        ensures
            forall|k: u64|
                pre.next_id <= k < post.next_id ==> #[trigger] post.spec_label(k) == t.take(k - pre.next_id + m + 1),
            forall|k: u64| pre.next_id <= k < post.next_id ==> #[trigger] post.spec_node(k).value == t[k - pre.next_id + m],
            forall|k: u64|
                pre.next_id <= k < post.next_id ==> #[trigger] post.spec_node(k).is_terminal == (k + 1 == post.next_id),
    {
        assert forall|k: u64|
            #![trigger post.spec_label(k)]
            #![trigger post.spec_node(k)]
            pre.next_id <= k < post.next_id implies post.spec_label(k) == t.take(k - pre.next_id + m + 1)
                && post.spec_node(k).value == t[k - pre.next_id + m] && post.spec_node(k).is_terminal == (k + 1
                == post.next_id) by {
            let q = k - pre.next_id + m + 1;
            assert(1 <= q <= t.len());
            assert(post.labels@[k] == t.take(q));
            assert(post.spec_label(k) == post.labels@[k]);
            assert(post.nodes@[k].is_terminal == (k - pre.next_id + 1 == t.len() - m));
            assert(0 < k < post.next_id);
            assert(post.labels@[k].len() > 0 && post.labels@[k].last() == post.nodes@[k].value);
            assert(t.take(q).last() == t[q - 1]);
            assert(post.spec_node(k) == post.nodes@[k]);
        }
    }

    /// The children tables and the new nodes once `t` is inserted, in the
    /// terms `add_token` states them.
    proof fn lemma_structure_after(pre: Trie, looped: Trie, post: Trie, t: Seq<u8>, m: int, p0: u64)
        requires
            Self::hung(pre, looped, p0),
            looped.wf_base(),
            0 < pre.next_id <= looped.next_id,
            m == pre@.matched_len(t),
            0 <= m <= t.len(),
            looped.next_id - pre.next_id == t.len() - m,
            pre.index@[t.take(m)] == p0,
            forall|k: u64|
                pre.next_id <= k < looped.next_id ==> #[trigger] looped.labels@[k] == t.take(k - pre.next_id + m + 1),
            forall|k: u64|
                pre.next_id <= k < looped.next_id ==> (#[trigger] looped.nodes@[k]).is_terminal == (k - pre.next_id
                    + 1 == t.len() - m),
            post.children == looped.children,
            post.labels == looped.labels,
            post.next_id == looped.next_id,
            m < t.len() ==> post == looped,
        ensures
            forall|k: u64|
                #![trigger post.spec_has_children(k)]
                #![trigger post.spec_children(k)]
                k < pre.spec_node_count() ==> {
                    let grows = pre@.matched_len(t) < t.len() && k == pre.spec_node_for(t.take(pre@.matched_len(t)));
                    &&& post.spec_has_children(k) == (pre.spec_has_children(k) || grows)
                    &&& post.spec_children(k) == (if grows {
                        pre.spec_children(k).push(pre.spec_node_count() as u64)
                    } else {
                        pre.spec_children(k)
                    })
                },
            forall|k: u64|
                #![trigger post.spec_label(k)]
                #![trigger post.spec_node(k)]
                #![trigger post.spec_has_children(k)]
                #![trigger post.spec_children(k)]
                pre.spec_node_count() <= k < post.spec_node_count() ==> {
                    &&& post.spec_label(k) == t.take(k - pre.spec_node_count() + pre@.matched_len(t) + 1)
                    &&& post.spec_node(k).value == t[k - pre.spec_node_count() + pre@.matched_len(t)]
                    &&& post.spec_node(k).is_terminal == (k + 1 == post.spec_node_count())
                    &&& post.spec_has_children(k) == (k + 1 < post.spec_node_count())
                    &&& post.spec_children(k) == (if k + 1 < post.spec_node_count() {
                        seq![(k + 1) as u64]
                    } else {
                        Seq::<u64>::empty()
                    })
                },
    {
        Self::lemma_hung_children(pre, looped, p0, m < t.len());
        Self::lemma_new_nodes_shape(pre, looped, t, m);
        assert(pre.spec_node_count() as u64 == pre.next_id);
        assert(pre.spec_node_for(t.take(pre@.matched_len(t))) == p0);
        assert forall|k: u64|
            #![trigger post.spec_has_children(k)]
            #![trigger post.spec_children(k)]
            k < pre.spec_node_count() implies {
            let grows = pre@.matched_len(t) < t.len() && k == pre.spec_node_for(t.take(pre@.matched_len(t)));
            &&& post.spec_has_children(k) == (pre.spec_has_children(k) || grows)
            &&& post.spec_children(k) == (if grows {
                pre.spec_children(k).push(pre.spec_node_count() as u64)
            } else {
                pre.spec_children(k)
            })
        } by {
            assert(post.spec_has_children(k) == looped.spec_has_children(k));
            assert(post.spec_children(k) == looped.spec_children(k));
            assert(looped.spec_has_children(k) == (pre.spec_has_children(k) || (m < t.len() && k == p0)));
        }
        assert forall|k: u64|
            #![trigger post.spec_label(k)]
            #![trigger post.spec_node(k)]
            #![trigger post.spec_children(k)]
            #![trigger post.spec_has_children(k)]
            pre.spec_node_count() <= k < post.spec_node_count() implies {
            &&& post.spec_label(k) == t.take(k - pre.spec_node_count() + pre@.matched_len(t) + 1)
            &&& post.spec_node(k).value == t[k - pre.spec_node_count() + pre@.matched_len(t)]
            &&& post.spec_node(k).is_terminal == (k + 1 == post.spec_node_count())
            &&& post.spec_has_children(k) == (k + 1 < post.spec_node_count())
            &&& post.spec_children(k) == (if k + 1 < post.spec_node_count() {
                seq![(k + 1) as u64]
            } else {
                Seq::<u64>::empty()
            })
        } by {
            assert(m < t.len());
            assert(post == looped);
            assert(looped.spec_label(k) == t.take(k - pre.next_id + m + 1));
            assert(looped.spec_has_children(k) == (k + 1 < looped.next_id));
        }
    }

    /// Which old nodes end a token once `t` is inserted: those that did, and
    /// the node of `t` itself.
    proof fn lemma_old_flags(pre: Trie, looped: Trie, post: Trie, t: Seq<u8>, m: int, p0: u64)
        requires
            pre.wf(),
            0 <= m <= t.len(),
            p0 < pre.next_id,
            pre.labels@[p0] == t.take(m),
            forall|k: int| m < k <= t.len() ==> !pre.index@.contains_key(#[trigger] t.take(k)),
            forall|k: u64| k < pre.next_id ==> #[trigger] looped.nodes@[k] == pre.nodes@[k],
            post.nodes@ == looped.nodes@ || (m == t.len() && t.len() > 0 && post.nodes@ == looped.nodes@.insert(
                p0,
                Node { id: p0, value: looped.nodes@[p0].value, is_terminal: true },
            )),
            post.nodes@ == looped.nodes@ && m == t.len() && t.len() > 0 ==> looped.nodes@[p0].is_terminal,
        ensures
            forall|k: u64|
                k < pre.next_id ==> #[trigger] post.nodes@[k].is_terminal == (pre.nodes@[k].is_terminal || (t.len()
                    > 0 && pre.labels@[k] == t)),
    {
        assert(pre.index@.contains_key(pre.labels@[p0]));
        assert forall|k: u64| k < pre.next_id implies #[trigger] post.nodes@[k].is_terminal == (
            pre.nodes@[k].is_terminal || (t.len() > 0 && pre.labels@[k] == t)) by {
            assert(looped.nodes@[k] == pre.nodes@[k]);
            assert(pre.index@.contains_key(pre.labels@[k]));
            if t.len() > 0 && pre.labels@[k] == t {
                assert(t.take(t.len() as int) =~= t);
                assert(m == t.len());
                assert(pre.index@[t] == k);
                assert(k == p0);
            }
            if k == p0 && m == t.len() && t.len() > 0 {
                assert(t.take(t.len() as int) =~= t);
                assert(pre.labels@[k] == t);
            }
        }
    }

    /// What holds while the new bytes of `t` past its spelled prefix `m`
    /// are hung below `p0`, with `parent` the node hung last.
    #[verifier::opaque]
    closed spec fn adding(pre: Trie, cur: Trie, t: Seq<u8>, m: int, p0: u64, parent: u64, nb: Seq<u8>) -> bool {
        let j = cur.next_id - pre.next_id;
        &&& cur.wf_base()
        &&& pre.wf()
        &&& 0 <= m <= t.len()
        &&& nb == t.skip(m)
        &&& 0 <= j <= nb.len()
        &&& cur.root_id == pre.root_id
        &&& pre.next_id + t.len() <= u64::MAX
        &&& parent < cur.next_id
        &&& cur.labels@[parent] == t.take(m + j)
        &&& forall|k: int| 0 <= k <= m + j ==> cur.index@.contains_key(#[trigger] t.take(k))
        &&& forall|k: int| m + j < k <= t.len() ==> !cur.index@.contains_key(#[trigger] t.take(k))
        &&& forall|k: int| m < k <= m + j ==> cur.index@[#[trigger] t.take(k)] == pre.next_id + (k - m - 1)
        &&& cur.index@.dom() == pre.index@.dom().union(
            Set::new(|s: Seq<u8>| m < s.len() <= m + j && s == t.take(s.len() as int)),
        )
        &&& forall|k: u64|
            k < pre.next_id ==> #[trigger] cur.nodes@[k] == pre.nodes@[k] && cur.labels@[k] == pre.labels@[k]
        &&& forall|k: u64|
            pre.next_id <= k < cur.next_id ==> (#[trigger] cur.nodes@[k]).is_terminal == (k - pre.next_id + 1
                == nb.len())
        &&& forall|k: u64|
            0 < k < cur.next_id && !(#[trigger] cur.nodes@[k]).is_terminal && k != parent ==> cur.children@.contains_key(
                k,
            )
        &&& j == 0 ==> cur == pre && parent == p0
        &&& j > 0 ==> parent + 1 == cur.next_id
        &&& p0 < pre.next_id
        &&& pre.labels@[p0] == t.take(m)
        &&& forall|k: int| m < k <= t.len() ==> !pre.index@.contains_key(#[trigger] t.take(k))
        &&& Self::hung(pre, cur, p0)
        &&& forall|k: u64|
            pre.next_id <= k < cur.next_id ==> #[trigger] cur.labels@[k] == t.take(k - pre.next_id + m + 1)
    }

    /// Hanging starts from the trie as it was.
    proof fn lemma_adding_start(pre: Trie, t: Seq<u8>, m: int, p0: u64, nb: Seq<u8>)
        requires
            pre.wf(),
            0 <= m <= t.len(),
            nb == t.skip(m),
            pre.next_id + t.len() <= u64::MAX,
            p0 < pre.next_id,
            pre.labels@[p0] == t.take(m),
            forall|k: int| 0 <= k <= m ==> pre@.paths.contains(#[trigger] t.take(k)),
            forall|k: int| m < k <= t.len() ==> !pre@.paths.contains(#[trigger] t.take(k)),
        ensures
            Self::adding(pre, pre, t, m, p0, p0, nb),
    {
        reveal(Trie::adding);
        Self::lemma_hung_start(pre, p0);
        assert(pre.index@.dom() =~= pre.index@.dom().union(
            Set::new(|s: Seq<u8>| m < s.len() <= m + 0 && s == t.take(s.len() as int)),
        ));
    }

    /// While hanging, the parent is a node, the next id is free and below
    /// the limit, and nothing has changed before the first byte is hung.
    proof fn lemma_adding_ready(pre: Trie, cur: Trie, t: Seq<u8>, m: int, p0: u64, parent: u64, nb: Seq<u8>)
        requires
            Self::adding(pre, cur, t, m, p0, parent, nb),
        ensures
            cur.spec_has_node(parent),
            cur.next_id - pre.next_id <= nb.len(),
            cur.next_id - pre.next_id < nb.len() ==> cur.spec_next_id() < u64::MAX,
            forall|k: u64| #[trigger] cur.spec_has_node(k) ==> k < cur.spec_next_id(),
            cur.next_id == pre.next_id ==> cur == pre && parent == p0,
            nb.len() == m + nb.len() - m,
            nb.len() == t.len() - m,
    {
        reveal(Trie::adding);
    }

    /// Hanging one more byte keeps `adding`.
    #[verifier::rlimit(100)]
    proof fn lemma_adding_step(
        pre: Trie,
        before: Trie,
        mid: Trie,
        post: Trie,
        t: Seq<u8>,
        m: int,
        p0: u64,
        parent: u64,
        nb: Seq<u8>,
        byte: u8,
        is_terminal: bool,
    )
        requires
            Self::adding(pre, before, t, m, p0, parent, nb),
            before.next_id - pre.next_id < nb.len(),
            byte == nb[before.next_id - pre.next_id],
            is_terminal == (before.next_id - pre.next_id + 1 == nb.len()),
            mid.spec_next_id() == before.spec_next_id() + 1,
            mid.spec_nodes() == before.spec_nodes().insert(
                before.next_id,
                Node { id: before.next_id, value: byte, is_terminal },
            ),
            mid.spec_child_table() == before.spec_child_table(),
            forall|k: u64| #[trigger] mid.spec_children(k) == before.spec_children(k),
            forall|k: u64| #[trigger] mid.spec_has_children(k) == before.spec_has_children(k),
            mid.spec_root() == before.spec_root(),
            mid.spec_spelling() == before.spec_spelling(),
            post.spec_child_table() == mid.spec_child_table().insert(
                parent,
                mid.spec_children(parent).push(before.next_id),
            ),
            post.spec_nodes() == mid.spec_nodes(),
            post.spec_next_id() == mid.spec_next_id(),
            post.spec_root() == mid.spec_root(),
            post.labels@ == mid.labels@.insert(before.next_id, before.labels@[parent].push(byte)),
            post.index@ == mid.index@.insert(before.labels@[parent].push(byte), before.next_id),
        ensures
            Self::adding(pre, post, t, m, p0, before.next_id, nb),
    {
        reveal(Trie::adding);
        let j = before.next_id - pre.next_id;
        let n = before.next_id;
        assert(t.take(m + j + 1) =~= t.take(m + j).push(byte));
        assert(!before.nodes@.contains_key(n));
        assert(mid.spec_children(parent) == before.spec_children(parent));
        Self::lemma_child_table(mid, post, parent, n);
        Self::lemma_hang_children(pre, before, mid, post, p0, parent);
        Self::lemma_extend(before, post, parent, byte, is_terminal);
        assert(post.labels@[n] == t.take(m + j + 1));
        Self::lemma_step_index(pre, before, post, t, m, j, n);
        Self::lemma_step_nodes(pre, before, post, t, m, j, n, parent, nb);
    }

    /// The spelled strings once the next byte of `t` is hung as node `n`.
    proof fn lemma_step_index(pre: Trie, before: Trie, post: Trie, t: Seq<u8>, m: int, j: int, n: u64)
        requires
            0 <= m,
            0 <= j,
            m + j + 1 <= t.len(),
            n == pre.next_id + j,
            post.index@ == before.index@.insert(t.take(m + j + 1), n),
            forall|k: int| 0 <= k <= m + j ==> before.index@.contains_key(#[trigger] t.take(k)),
            forall|k: int| m + j < k <= t.len() ==> !before.index@.contains_key(#[trigger] t.take(k)),
            forall|k: int| m < k <= m + j ==> before.index@[#[trigger] t.take(k)] == pre.next_id + (k - m - 1),
            before.index@.dom() == pre.index@.dom().union(
                Set::new(|s: Seq<u8>| m < s.len() <= m + j && s == t.take(s.len() as int)),
            ),
        ensures
            forall|k: int| 0 <= k <= m + j + 1 ==> post.index@.contains_key(#[trigger] t.take(k)),
            forall|k: int| m + j + 1 < k <= t.len() ==> !post.index@.contains_key(#[trigger] t.take(k)),
            forall|k: int| m < k <= m + j + 1 ==> post.index@[#[trigger] t.take(k)] == pre.next_id + (k - m - 1),
            post.index@.dom() == pre.index@.dom().union(
                Set::new(|s: Seq<u8>| m < s.len() <= m + j + 1 && s == t.take(s.len() as int)),
            ),
    {
        assert forall|k: int| 0 <= k <= m + j + 1 implies post.index@.contains_key(#[trigger] t.take(k)) by {
            if k <= m + j {
                assert(before.index@.contains_key(t.take(k)));
            }
        }
        assert forall|k: int| m + j + 1 < k <= t.len() implies !post.index@.contains_key(#[trigger] t.take(k)) by {
            assert(t.take(k).len() != t.take(m + j + 1).len());
            assert(!before.index@.contains_key(t.take(k)));
        }
        assert forall|k: int| m < k <= m + j + 1 implies post.index@[#[trigger] t.take(k)] == pre.next_id + (k
            - m - 1) by {
            if k <= m + j {
                assert(t.take(k).len() != t.take(m + j + 1).len());
                assert(before.index@[t.take(k)] == pre.next_id + (k - m - 1));
            }
        }
        assert(post.index@.dom() =~= pre.index@.dom().union(
            Set::new(|s: Seq<u8>| m < s.len() <= m + j + 1 && s == t.take(s.len() as int)),
        ));
    }

    /// The nodes once the next byte of `t` is hung as node `n` below `parent`.
    proof fn lemma_step_nodes(
        pre: Trie,
        before: Trie,
        post: Trie,
        t: Seq<u8>,
        m: int,
        j: int,
        n: u64,
        parent: u64,
        nb: Seq<u8>,
    )
        requires
            0 <= j,
            n == before.next_id,
            n == pre.next_id + j,
            post.next_id == n + 1,
            m + j + 1 <= t.len(),
            post.labels@[n] == t.take(m + j + 1),
            post.nodes@ == before.nodes@.insert(n, post.nodes@[n]),
            post.labels@ == before.labels@.insert(n, post.labels@[n]),
            post.nodes@[n].is_terminal == (j + 1 == nb.len()),
            post.children@.contains_key(parent),
            forall|p: u64| #[trigger] before.children@.contains_key(p) ==> post.children@.contains_key(p),
            forall|k: u64|
                k < pre.next_id ==> #[trigger] before.nodes@[k] == pre.nodes@[k] && before.labels@[k] == pre.labels@[k],
            forall|k: u64|
                pre.next_id <= k < before.next_id ==> (#[trigger] before.nodes@[k]).is_terminal == (k - pre.next_id
                    + 1 == nb.len()),
            forall|k: u64|
                0 < k < before.next_id && !(#[trigger] before.nodes@[k]).is_terminal && k != parent
                    ==> before.children@.contains_key(k),
            forall|k: u64|
                pre.next_id <= k < before.next_id ==> #[trigger] before.labels@[k] == t.take(k - pre.next_id + m + 1),
        ensures
            forall|k: u64|
                k < pre.next_id ==> #[trigger] post.nodes@[k] == pre.nodes@[k] && post.labels@[k] == pre.labels@[k],
            forall|k: u64|
                pre.next_id <= k < post.next_id ==> (#[trigger] post.nodes@[k]).is_terminal == (k - pre.next_id + 1
                    == nb.len()),
            forall|k: u64|
                0 < k < post.next_id && !(#[trigger] post.nodes@[k]).is_terminal && k != n ==> post.children@.contains_key(
                    k,
                ),
            forall|k: u64|
                pre.next_id <= k < post.next_id ==> #[trigger] post.labels@[k] == t.take(k - pre.next_id + m + 1),
    {
        assert forall|k: u64| k < pre.next_id implies #[trigger] post.nodes@[k] == pre.nodes@[k] && post.labels@[k]
            == pre.labels@[k] by {
            assert(before.nodes@[k] == pre.nodes@[k]);
        }
        assert forall|k: u64|
            pre.next_id <= k < post.next_id implies (#[trigger] post.nodes@[k]).is_terminal == (k - pre.next_id + 1
                == nb.len()) by {
            if k < n {
                assert(before.nodes@[k].is_terminal == (k - pre.next_id + 1 == nb.len()));
            }
        }
        assert forall|k: u64|
            0 < k < post.next_id && !(#[trigger] post.nodes@[k]).is_terminal && k != n implies post.children@.contains_key(
            k) by {
            if k != parent {
                assert(before.nodes@[k] == post.nodes@[k]);
                assert(before.children@.contains_key(k));
            }
        }
        assert forall|k: u64| pre.next_id <= k < post.next_id implies #[trigger] post.labels@[k] == t.take(
            k - pre.next_id + m + 1,
        ) by {
            if k < n {
                assert(before.labels@[k] == t.take(k - pre.next_id + m + 1));
            }
        }
    }

    /// What `add_token` ensures, from what holds once every new byte is hung
    /// and the node of the token is marked where needed.
    #[verifier::rlimit(60)]
    proof fn lemma_adding_finish(
        pre: Trie,
        looped: Trie,
        post: Trie,
        t: Seq<u8>,
        m: int,
        p0: u64,
        parent: u64,
        nb: Seq<u8>,
        marked: bool,
    )
        requires
            Self::adding(pre, looped, t, m, p0, parent, nb),
            looped.next_id == pre.next_id + nb.len(),
            m == pre@.matched_len(t),
            post.root_id == looped.root_id,
            post.children == looped.children,
            post.next_id == looped.next_id,
            post.labels == looped.labels,
            post.index == looped.index,
            marked ==> nb.len() == 0 && t.len() > 0 && !looped.nodes@[parent].is_terminal && post.nodes@
                == looped.nodes@.insert(parent, Node { id: parent, value: looped.nodes@[parent].value, is_terminal: true }),
            !marked ==> post == looped && (nb.len() == 0 && t.len() > 0 ==> looped.nodes@[parent].is_terminal),
        ensures
            post.wf(),
            post@ == pre@.with_token(t),
            post.spec_node_count() == pre.spec_node_count() + t.len() - pre@.matched_len(t),
            0 <= pre@.matched_len(t) <= t.len(),
            pre@.terminals.contains(t) || t.len() == 0 ==> post == pre,
            forall|k: u64| k < pre.spec_node_count() ==> #[trigger] post.spec_label(k) == pre.spec_label(k),
            forall|k: u64| k < pre.spec_node_count() ==> (#[trigger] post.spec_node(k)).value == pre.spec_node(k).value,
            post.spec_root() == pre.spec_root(),
            forall|k: u64|
                k < pre.spec_node_count() ==> (#[trigger] post.spec_node(k)).is_terminal == (pre.spec_node(k).is_terminal || (t.len() > 0 && pre.spec_label(k) == t)),
            forall|k: u64|
                #![trigger post.spec_has_children(k)]
                #![trigger post.spec_children(k)]
                k < pre.spec_node_count() ==> {
                    let grows = pre@.matched_len(t) < t.len() && k == pre.spec_node_for(
                        t.take(pre@.matched_len(t)),
                    );
                    &&& post.spec_has_children(k) == (pre.spec_has_children(k) || grows)
                    &&& post.spec_children(k) == (if grows {
                        pre.spec_children(k).push(pre.spec_node_count() as u64)
                    } else {
                        pre.spec_children(k)
                    })
                },
            forall|k: u64|
                #![trigger post.spec_label(k)]
                #![trigger post.spec_node(k)]
                #![trigger post.spec_has_children(k)]
                #![trigger post.spec_children(k)]
                pre.spec_node_count() <= k < post.spec_node_count() ==> {
                    &&& post.spec_label(k) == t.take(
                        k - pre.spec_node_count() + pre@.matched_len(t) + 1,
                    )
                    &&& post.spec_node(k).value == t[k - pre.spec_node_count() + pre@.matched_len(t)]
                    &&& post.spec_node(k).is_terminal == (k + 1 == post.spec_node_count())
                    &&& post.spec_has_children(k) == (k + 1 < post.spec_node_count())
                    &&& post.spec_children(k) == (if k + 1 < post.spec_node_count() {
                        seq![(k + 1) as u64]
                    } else {
                        Seq::<u64>::empty()
                    })
                },
    {
        reveal(Trie::adding);
        assert(t.take(t.len() as int) =~= t);
        assert(pre.index@.contains_key(pre.labels@[p0]));
        assert(pre.index@[t.take(m)] == p0);
        if pre@.terminals.contains(t) || t.len() == 0 {
            if t.len() > 0 {
                assert(pre.index@.contains_key(t));
                assert(m == t.len());
                assert(pre.index@[t] == p0);
            }
            assert(nb.len() == 0);
            assert(looped == pre);
            assert(!marked);
        }
        if marked {
            assert(looped == pre);
            assert(t.take(m) == t);
            assert(p0 != 0) by {
                assert(pre.labels@[0] == Seq::<u8>::empty());
            }
            Self::lemma_mark_terminal(looped, post, parent);
        }
        Self::lemma_old_flags(pre, looped, post, t, m, p0);
        Self::lemma_structure_after(pre, looped, post, t, m, p0);
        assert(post.index@.dom() =~= pre.index@.dom().union(prefixes(t))) by {
            assert forall|s: Seq<u8>| prefixes(t).contains(s) implies post.index@.contains_key(s) by {
                assert(s == t.take(s.len() as int));
            }
        }
        if nb.len() > 0 {
            assert(post@.terminals =~= pre@.with_token(t).terminals) by {
                assert forall|s: Seq<u8>| #[trigger] post@.terminals.contains(s) == pre@.with_token(t).terminals.contains(s) by {
                    if pre.index@.contains_key(s) {
                        assert(pre.index@[s] < pre.next_id);
                        assert(post.index@[s] == pre.index@[s]) by {
                            assert(post.labels@[pre.index@[s]] == s);
                            assert(post.index@.contains_key(post.labels@[pre.index@[s]]));
                        }
                    } else if post.index@.contains_key(s) {
                        assert(s == t.take(s.len() as int));
                    }
                }
            }
        } else {
            assert(m == t.len());
            assert(parent == p0);
            assert(pre.labels@[parent] == t);
            if !marked {
                assert(post == pre);
                if t.len() > 0 {
                    assert(pre@.terminals.contains(t));
                }
                assert(post@.terminals =~= pre@.with_token(t).terminals);
            }
            if pre@.terminals.contains(t) {
                assert(pre.index@[t] == parent);
            }
        }
        assert forall|k: u64| k < pre.spec_node_count() implies (#[trigger] post.spec_node(k)).is_terminal == (
            pre.spec_node(k).is_terminal || (t.len() > 0 && pre.spec_label(k) == t)) by {
            assert(post.nodes@[k].is_terminal == (pre.nodes@[k].is_terminal || (t.len() > 0 && pre.labels@[k] == t)));
        }
        assert forall|k: u64|
            #![trigger post.spec_node(k)]
            #![trigger post.spec_label(k)]
            k < pre.spec_node_count() implies post.spec_node(k).value == pre.spec_node(k).value
            && post.spec_label(k) == pre.spec_label(k) by {
            assert(looped.nodes@[k] == pre.nodes@[k]);
            if marked && k == parent {
                assert(post.nodes@[k].value == looped.nodes@[k].value);
            } else if marked {
                assert(post.nodes@[k] == looped.nodes@[k]);
            }
        }
    }

    /// Marking an inner node as ending a token keeps the invariant and adds
    /// the string it spells to the tokens.
    proof fn lemma_mark_terminal(pre: Trie, post: Trie, id: u64)
        requires
            pre.wf(),
            0 < id < pre.next_id,
            post.root_id == pre.root_id,
            post.next_id == pre.next_id,
            post.children@ == pre.children@,
            post.labels@ == pre.labels@,
            post.index@ == pre.index@,
            post.nodes@ == pre.nodes@.insert(id, Node { id, value: pre.nodes@[id].value, is_terminal: true }),
        ensures
            post.wf(),
            post@.paths == pre@.paths,
            post@.terminals == pre@.terminals.insert(pre.labels@[id]),
    {
        assert(pre.index@.contains_key(pre.labels@[id]));
        assert forall|s: Seq<u8>| #[trigger] post@.terminals.contains(s) == pre@.terminals.insert(pre.labels@[id]).contains(s) by {
            if pre.index@.contains_key(s) {
                assert(pre.labels@[pre.index@[s]] == s);
            }
        }
        assert(post@.terminals =~= pre@.terminals.insert(pre.labels@[id]));
    }

    /// What `valid_next_bytes` finds after `prefix`: the bytes on the
    /// children of the node that spells `prefix`, when there is such a node
    /// and it has children.
    pub closed spec fn spec_next_bytes(self, prefix: Seq<u8>) -> Option<Seq<u8>> {
        if self@.paths.contains(prefix) && self.children@.contains_key(self.index@[prefix]) {
            Some(self.spec_path_bytes(self.children@[self.index@[prefix]]@))
        } else {
            None
        }
    }

    /// How many more edges may lie below `n`: no node is deeper than its id.
    pub closed spec fn depth_left(self, n: u64) -> nat {
        (self.next_id - self.labels@[n].len()) as nat
    }

    /// The tokens found at and below `n`, depth first: the string of `n`
    /// first when it ends a token, then those below each child, children in
    /// the order they were attached.
    pub closed spec fn tokens_at(self, n: u64, fuel: nat) -> Seq<Seq<u8>>
        decreases fuel, 0nat,
    {
        (if self.nodes@[n].is_terminal {
            seq![self.labels@[n]]
        } else {
            Seq::empty()
        }) + (if fuel == 0 {
            Seq::empty()
        } else {
            self.tokens_in(self.spec_children(n), (fuel - 1) as nat)
        })
    }

    /// The tokens found below each of `ks`, in order.
    pub closed spec fn tokens_in(self, ks: Seq<u64>, fuel: nat) -> Seq<Seq<u8>>
        decreases fuel, ks.len(),
    {
        if ks.len() == 0 {
            Seq::empty()
        } else {
            self.tokens_at(ks[0], fuel) + self.tokens_in(ks.drop_first(), fuel)
        }
    }

    /// The tokens that `find_tokens_with_prefix` reports at and below `n`.
    pub closed spec fn spec_tokens_below(self, n: u64) -> Seq<Seq<u8>> {
        self.tokens_at(n, self.depth_left(n))
    }

    /// The tokens found from each of `ks` in turn.
    pub open spec fn tokens_below_all(self, ks: Seq<u64>) -> Seq<Seq<u8>>
        decreases ks.len(),
    {
        if ks.len() == 0 {
            Seq::empty()
        } else {
            self.spec_tokens_below(ks[0]) + self.tokens_below_all(ks.drop_first())
        }
    }

    /// The number of nodes the depth-first search visits at and below `n`.
    closed spec fn visits_at(self, n: u64, fuel: nat) -> nat
        decreases fuel, 0nat,
    {
        if fuel == 0 {
            1
        } else {
            1 + self.visits_in(self.spec_children(n), (fuel - 1) as nat)
        }
    }

    closed spec fn visits_in(self, ks: Seq<u64>, fuel: nat) -> nat
        decreases fuel, ks.len(),
    {
        if ks.len() == 0 {
            0
        } else {
            self.visits_at(ks[0], fuel) + self.visits_in(ks.drop_first(), fuel)
        }
    }

    /// Tokens still to be found from a stack of nodes, top (last) first.
    closed spec fn stack_tokens(self, st: Seq<u64>) -> Seq<Seq<u8>>
        decreases st.len(),
    {
        if st.len() == 0 {
            Seq::empty()
        } else {
            self.spec_tokens_below(st.last()) + self.stack_tokens(st.drop_last())
        }
    }

    /// Nodes still to be visited from a stack of nodes.
    closed spec fn stack_visits(self, st: Seq<u64>) -> nat
        decreases st.len(),
    {
        if st.len() == 0 {
            0
        } else {
            self.visits_at(st.last(), self.depth_left(st.last())) + self.stack_visits(st.drop_last())
        }
    }

    /// `p` starts at a child of the root, and the bytes on its nodes spell
    /// the string of its last node.
    pub closed spec fn is_token_path(self, p: Seq<u64>) -> bool {
        &&& p.len() > 0
        &&& self.spec_children(self.root_id).contains(p[0])
        &&& forall|i: int| 0 <= i < p.len() ==> 0 < #[trigger] p[i] < self.next_id
        &&& self.spec_path_bytes(p) == self.labels@[p.last()]
    }

    /// The nodes spelling the longest spelled prefix of `t` form a token
    /// path when that prefix is not empty.
    proof fn lemma_start_path(self, t: Seq<u8>)
        requires
            self.wf(),
            t.len() > 0,
            self@.paths.contains(t.take(1)),
            self@.matched_len(t) >= 1,
        ensures
            self.is_token_path(Seq::new(self@.matched_len(t) as nat, |i: int| self.index@[t.take(i + 1)])),
    {
        let m = self@.matched_len(t);
        let p = Seq::new(m as nat, |i: int| self.index@[t.take(i + 1)]);
        assert(t.take(0) =~= Seq::<u8>::empty());
        self.lemma_match_props(t, 0);
        assert(t.take(1).drop_last() =~= t.take(0));
        assert(self.index@.contains_key(self.labels@[0]));
        assert(self.children@[0]@.contains(p[0]));
        assert forall|i: int| 0 <= i < p.len() implies 0 < #[trigger] p[i] < self.next_id by {
            assert(self.index@.contains_key(t.take(i + 1)));
            assert(self.labels@[p[i]] == t.take(i + 1));
        }
        assert(self.spec_path_bytes(p) =~= t.take(m)) by {
            assert forall|i: int| 0 <= i < m implies #[trigger] self.spec_path_bytes(p)[i] == t.take(m)[i] by {
                assert(self.index@.contains_key(t.take(i + 1)));
                assert(self.labels@[p[i]] == t.take(i + 1));
            }
        }
        assert(self.index@.contains_key(t.take(m)));
        assert(p.last() == self.index@[t.take(m)]);
    }

    /// A token path followed by a child of its last node is a token path, one
    /// edge deeper.
    proof fn lemma_extend_token_path(self, p: Seq<u64>, c: u64)
        requires
            self.wf(),
            self.is_token_path(p),
            self.spec_children(p.last()).contains(c),
        ensures
            self.is_token_path(p.push(c)),
            self.depth_left(c) + 1 == self.depth_left(p.last()),
            self.labels@[c] == self.labels@[p.last()].push(self.nodes@[c].value),
    {
        let i = choose|i: int| 0 <= i < self.spec_children(p.last()).len() && self.spec_children(p.last())[i] == c;
        assert(self.children@[p.last()]@[i] == c);
        assert(self.spec_path_bytes(p.push(c)) =~= self.spec_path_bytes(p).push(self.nodes@[c].value));
        assert(p.push(c)[0] == p[0]);
        assert(self.labels@[p.last()].len() <= p.last());
    }

    /// An empty trie: the root alone.
    pub fn new() -> (trie: Trie)
        ensures
            trie.wf(),
            trie@.paths == set![Seq::<u8>::empty()],
            trie@.terminals == Set::<Seq<u8>>::empty(),
            trie.spec_node_count() == 1,
            forall|id: u64| !(#[trigger] trie.spec_has_children(id)),
    {
        let root = Node::new(&ROOT_BYTE, false, 0);
        let mut instance = Trie {
            root_id: root.id,
            nodes: HashMap::new(),
            children: HashMap::new(),
            next_id: 1,
            labels: Ghost(Map::empty().insert(0u64, Seq::empty())),
            index: Ghost(Map::empty().insert(Seq::empty(), 0u64)),
        };
        instance.nodes.insert(root.id, root);
        proof {
            assert forall|s: Seq<u8>, j: int|
                #[trigger] instance.index@.contains_key(s) && 0 <= j <= s.len() implies instance.index@.contains_key(
                #[trigger] s.take(j)) by {
                assert(s.take(j) =~= Seq::<u8>::empty());
            }
            assert(instance@.paths =~= set![Seq::<u8>::empty()]);
            assert(instance@.terminals =~= Set::<Seq<u8>>::empty());
        }
        instance
    }
}

impl Trie {
    /// The nodes met when spelling `token` from the root, as long as some
    /// child carries the next byte. `None` when the token is not empty and the
    /// root has no children.
    pub fn bytes_to_path(&self, token: &[u8]) -> (res: Option<Vec<u64>>)
        requires
            self.wf(),
        ensures
            match self.spec_path_for(token@) {
                None => res is None,
                Some(p) => res matches Some(v) && v@ == p,
            },
            res matches Some(v) ==> forall|i: int| 0 <= i < v@.len() ==> self.spec_has_node(#[trigger] v@[i]),
    {
        let mut current_node = self.root_id;
        let mut path: Vec<u64> = Vec::new();
        let mut i: usize = 0;
        let ghost t = token@;
        proof {
            assert(t.take(0) =~= Seq::<u8>::empty());
            assert(self.index@.contains_key(self.labels@[0]));
        }
        while i < token.len()
            invariant
                self.wf(),
                t == token@,
                i <= token.len(),
                path@.len() == i,
                forall|k: int| 0 <= k <= i ==> self@.paths.contains(#[trigger] t.take(k)),
                current_node == self.index@[t.take(i as int)],
                forall|k: int| 0 <= k < i ==> path@[k] == self.index@[#[trigger] t.take(k + 1)],
                i > 0 ==> self.children@.contains_key(self.root_id),
            ensures
                i < t.len() ==> !self@.paths.contains(t.take(i + 1)),
                t.len() > 0 ==> self.children@.contains_key(self.root_id),
            decreases token.len() - i,
        {
            let byte = token[i];
            match self.children.get(&current_node) {
                None => {
                    proof {
                        if self@.paths.contains(t.take(i + 1)) {
                            assert(t.take(i + 1).drop_last() =~= t.take(i as int));
                        }
                    }
                    if path.len() == 0 {
                        proof {
                            assert(t.take(0) =~= Seq::<u8>::empty());
                        }
                        return None;
                    } else {
                        proof {
                            self.lemma_match_len(t, i as int, 0);
                            assert(path@ =~= Seq::new(i as nat, |k: int| self.index@[t.take(k + 1)]));
                        }
                        return Some(path);
                    }
                },
                Some(children) => {
                    let mut k: usize = 0;
                    let mut found: Option<u64> = None;
                    while k < children.len()
                        invariant_except_break
                            found is None,
                        invariant
                            self.wf(),
                            k <= children.len(),
                            children@ == self.children@[current_node]@,
                            self.children@.contains_key(current_node),
                            forall|q: int| 0 <= q < k ==> self.nodes@[#[trigger] children@[q]].value != byte,
                        ensures
                            found matches Some(c) ==> children@.contains(c) && self.nodes@[c].value == byte,
                            found is None ==> forall|q: int| 0 <= q < children@.len() ==> self.nodes@[#[trigger] children@[q]].value != byte,
                        decreases children.len() - k,
                    {
                        let id = children[k];
                        if self.nodes.get(&id).unwrap().value == byte {
                            found = Some(id);
                            break;
                        }
                        k += 1;
                    }
                    match found {
                        Some(value) => {
                            proof {
                                let q = choose|q: int| 0 <= q < children@.len() && children@[q] == value;
                                assert(self.labels@[value] == self.labels@[current_node].push(byte));
                                assert(t.take(i + 1) =~= t.take(i as int).push(byte));
                                assert(self.index@.contains_key(self.labels@[value]));
                                assert(self.index@[t.take(i + 1)] == value);
                            }
                            path.push(value);
                            current_node = value;
                        },
                        None => {
                            proof {
                                if self@.paths.contains(t.take(i + 1)) {
                                    let s = t.take(i + 1);
                                    assert(s.drop_last() =~= t.take(i as int));
                                    let c = self.index@[s];
                                    let q = choose|q: int| 0 <= q < children@.len() && children@[q] == c;
                                    assert(self.labels@[c] == s);
                                }
                            }
                            break;
                        },
                    }
                },
            }
            i += 1;
        }
        proof {
            self.lemma_match_len(t, i as int, 0);
            assert(path@ =~= Seq::new(i as nat, |k: int| self.index@[t.take(k + 1)]));
        }
        Some(path)
    }
}

impl Trie {
    /// Stores a new node carrying `byte` under the next id, which no node
    /// holds yet, and hands it back. The node hangs nowhere yet, so the
    /// trie's invariant is not kept: `add_token` attaches it and restores the
    /// invariant.
    pub fn add_node(&mut self, byte: u8, is_terminal: bool) -> (node: &Node)
        requires
            old(self).spec_next_id() < u64::MAX,
            forall|k: u64| #[trigger] old(self).spec_has_node(k) ==> k < old(self).spec_next_id(),
        ensures
            *node == (Node { id: old(self).spec_next_id(), value: byte, is_terminal }),
            !old(self).spec_has_node(node.id),
            final(self).spec_next_id() == old(self).spec_next_id() + 1,
            final(self).spec_nodes() == old(self).spec_nodes().insert(node.id, *node),
            forall|k: u64| #[trigger] final(self).spec_has_node(k) ==> k < final(self).spec_next_id(),
            final(self).spec_child_table() == old(self).spec_child_table(),
            forall|k: u64| #[trigger] final(self).spec_children(k) == old(self).spec_children(k),
            forall|k: u64| #[trigger] final(self).spec_has_children(k) == old(self).spec_has_children(k),
            final(self).spec_root() == old(self).spec_root(),
            final(self).spec_spelling() == old(self).spec_spelling(),
    {
        proof {
            assert(!old(self).spec_has_node(old(self).spec_next_id()));
        }
        let next_node = Node::new(&byte, is_terminal, self.next_id);
        self.next_id = self.next_id.wrapping_add(1);
        proof {
            assert forall|k: u64| #[trigger] self.nodes@.insert(next_node.id, next_node).contains_key(k) implies k
                < self.next_id by {
                if k != next_node.id {
                    assert(old(self).spec_has_node(k));
                }
            }
        }
        self.nodes.entry(next_node.id).or_insert(next_node)
    }

    /// Appends `child_id` to the children of `parent_id`. Any two ids are
    /// accepted, so the trie's invariant is not kept; `add_token` uses it on
    /// the nodes it creates.
    pub fn add_child(&mut self, parent_id: u64, child_id: u64)
        ensures
            final(self).spec_child_table() == old(self).spec_child_table().insert(
                parent_id,
                old(self).spec_children(parent_id).push(child_id),
            ),
            final(self).spec_nodes() == old(self).spec_nodes(),
            final(self).spec_next_id() == old(self).spec_next_id(),
            final(self).spec_root() == old(self).spec_root(),
            final(self).spec_spelling() == old(self).spec_spelling(),
    {
        self.children.entry(parent_id).or_insert(Vec::new()).push(child_id);
        proof {
            assert(final(self).spec_child_table() =~= old(self).spec_child_table().insert(
                parent_id,
                old(self).spec_children(parent_id).push(child_id),
            ));
        }
    }
}

impl Trie {
    /// The bytes of `token` past the first `path.len()` ones; all of `token`
    /// when there is no path.
    pub fn path_token_difference(&self, path: Option<Vec<u64>>, token: &[u8]) -> (res: Vec<u8>)
        requires
            path matches Some(p) ==> p@.len() <= token@.len(),
        ensures
            res@ == match path {
                Some(p) => token@.skip(p@.len() as int),
                None => token@,
            },
    {
        let bytes = match path {
            Some(path) => token.split_at(path.len()).1,
            None => token,
        };
        proof {
            if path is Some {
                assert(bytes@ =~= token@.skip(path->0@.len() as int));
            }
        }
        return vstd::slice::slice_to_vec(bytes);
    }

    /// The bytes stored at the nodes of `path`, in order.
    pub fn traverse_path(&self, path: &Vec<u64>) -> (res: Vec<u8>)
        requires
            forall|i: int| 0 <= i < path@.len() ==> self.spec_has_node(#[trigger] path@[i]),
        ensures
            res@ == self.spec_path_bytes(path@),
    {
        let mut res: Vec<u8> = Vec::new();
        let mut i: usize = 0;
        while i < path.len()
            invariant
                i <= path@.len(),
                forall|j: int| 0 <= j < path@.len() ==> self.spec_has_node(#[trigger] path@[j]),
                res@ =~= self.spec_path_bytes(path@.take(i as int)),
            decreases path.len() - i,
        {
            let idx = path[i];
            res.push(self.nodes.get(&idx).unwrap().value);
            proof {
                assert(path@.take(i + 1) =~= path@.take(i as int).push(idx));
            }
            i += 1;
        }
        proof {
            assert(path@.take(path@.len() as int) =~= path@);
        }
        res
    }
}

impl Trie {
    /// Inserts `token`: the bytes past its longest spelled prefix are hung
    /// below the node where that prefix ends (the root when none of it is
    /// spelled), one node per byte, and the last of them ends the token.
    /// When the whole token is already spelled, the node where it ends is
    /// marked as ending a token.
    pub fn add_token(&mut self, token: &[u8])
        requires
            old(self).wf(),
            old(self).spec_node_count() + token@.len() <= u64::MAX,
        ensures
            final(self).wf(),
            final(self)@ == old(self)@.with_token(token@),
            final(self).spec_node_count() == old(self).spec_node_count() + token@.len() - old(
                self,
            )@.matched_len(token@),
            0 <= old(self)@.matched_len(token@) <= token@.len(),
            old(self)@.terminals.contains(token@) || token@.len() == 0 ==> *final(self) == *old(self),
            forall|k: u64|
                k < old(self).spec_node_count() ==> #[trigger] final(self).spec_label(k) == old(self).spec_label(k),
            forall|k: u64|
                k < old(self).spec_node_count() ==> (#[trigger] final(self).spec_node(k)).value == old(
                    self,
                ).spec_node(k).value,
            final(self).spec_root() == old(self).spec_root(),
            forall|k: u64|
                k < old(self).spec_node_count() ==> (#[trigger] final(self).spec_node(k)).is_terminal == (old(
                    self,
                ).spec_node(k).is_terminal || (token@.len() > 0 && old(self).spec_label(k) == token@)),
            forall|k: u64|
                #![trigger final(self).spec_has_children(k)]
                #![trigger final(self).spec_children(k)]
                k < old(self).spec_node_count() ==> {
                    let grows = old(self)@.matched_len(token@) < token@.len() && k == old(self).spec_node_for(
                        token@.take(old(self)@.matched_len(token@)),
                    );
                    &&& final(self).spec_has_children(k) == (old(self).spec_has_children(k) || grows)
                    &&& final(self).spec_children(k) == (if grows {
                        old(self).spec_children(k).push(old(self).spec_node_count() as u64)
                    } else {
                        old(self).spec_children(k)
                    })
                },
            forall|k: u64|
                #![trigger final(self).spec_label(k)]
                #![trigger final(self).spec_node(k)]
                #![trigger final(self).spec_has_children(k)]
                #![trigger final(self).spec_children(k)]
                old(self).spec_node_count() <= k < final(self).spec_node_count() ==> {
                    &&& final(self).spec_label(k) == token@.take(
                        k - old(self).spec_node_count() + old(self)@.matched_len(token@) + 1,
                    )
                    &&& final(self).spec_node(k).value == token@[k - old(self).spec_node_count() + old(
                        self,
                    )@.matched_len(token@)]
                    &&& final(self).spec_node(k).is_terminal == (k + 1 == final(self).spec_node_count())
                    &&& final(self).spec_has_children(k) == (k + 1 < final(self).spec_node_count())
                    &&& final(self).spec_children(k) == (if k + 1 < final(self).spec_node_count() {
                        seq![(k + 1) as u64]
                    } else {
                        Seq::<u64>::empty()
                    })
                },
    {
        let ghost pre = *self;
        let ghost t = token@;
        proof {
            assert(t.take(0) =~= Seq::<u8>::empty());
            assert(self.index@.contains_key(self.labels@[0]));
            self.lemma_match_props(t, 0);
        }
        let ghost m = self@.matched_len(t);
        let known_path = self.bytes_to_path(token);
        let mut parent_id = self.root_id;
        match &known_path {
            Some(v) => {
                if v.len() > 0 {
                    parent_id = v[v.len() - 1];
                }
            },
            None => {},
        }
        proof {
            if known_path is None {
                if m > 0 {
                    assert(t.take(1).drop_last() =~= t.take(0));
                }
            }
            assert(self.labels@[parent_id] == t.take(m));
        }
        let new_bytes = self.path_token_difference(known_path, token);
        let ghost p0 = parent_id;
        proof {
            assert(t.skip(0) =~= t);
            assert(new_bytes@ =~= t.skip(m));
            Self::lemma_adding_start(pre, t, m, p0, new_bytes@);
        }
        let mut j: usize = 0;
        while j < new_bytes.len()
            invariant
                j <= new_bytes@.len(),
                self.next_id == pre.next_id + j,
                Self::adding(pre, *self, t, m, p0, parent_id, new_bytes@),
            decreases new_bytes.len() - j,
        {
            let byte = new_bytes[j];
            let is_terminal = j + 1 == new_bytes.len();
            let ghost before = *self;
            proof {
                Self::lemma_adding_ready(pre, before, t, m, p0, parent_id, new_bytes@);
            }
            let node_id = self.add_node(byte, is_terminal).id;
            let ghost mid = *self;
            self.add_child(parent_id, node_id);
            let ghost lbl = before.labels@[parent_id].push(byte);
            self.labels = Ghost(self.labels@.insert(node_id, lbl));
            self.index = Ghost(self.index@.insert(lbl, node_id));
            proof {
                Self::lemma_adding_step(pre, before, mid, *self, t, m, p0, parent_id, new_bytes@, byte, is_terminal);
            }
            parent_id = node_id;
            j += 1;
        }
        let ghost looped = *self;
        let ghost mut marked = false;
        proof {
            Self::lemma_adding_ready(pre, looped, t, m, p0, parent_id, new_bytes@);
        }
        if new_bytes.len() == 0 && token.len() > 0 {
            let value = self.nodes.get(&parent_id).unwrap().value;
            if !self.nodes.get(&parent_id).unwrap().is_terminal {
                self.nodes.insert(parent_id, Node::new(&value, true, parent_id));
                proof {
                    marked = true;
                }
            }
        }
        proof {
            Self::lemma_adding_finish(pre, looped, *self, t, m, p0, parent_id, new_bytes@, marked);
        }
    }
}

impl Trie {
    /// Inserts the tokens in order, each by its UTF-8 bytes.
    pub fn add_tokens(&mut self, tokens: &[&str])
        requires
            old(self).wf(),
            old(self).spec_node_count() + total_bytes(tokens@) <= u64::MAX,
        ensures
            final(self).wf(),
            final(self)@ == old(self)@.with_tokens(token_bytes(tokens@)),
    {
        let ghost pre = *self;
        let ghost bs = token_bytes(tokens@);
        let mut i: usize = 0;
        proof {
            assert(tokens@.skip(0) =~= tokens@);
            assert(bs.take(0) =~= Seq::<Seq<u8>>::empty());
        }
        while i < tokens.len()
            invariant
                self.wf(),
                i <= tokens@.len(),
                bs == token_bytes(tokens@),
                self.spec_node_count() + total_bytes(tokens@.skip(i as int)) <= u64::MAX,
                self@ == pre@.with_tokens(bs.take(i as int)),
            decreases tokens.len() - i,
        {
            let token = tokens[i];
            proof {
                assert(tokens@.skip(i as int).drop_first() =~= tokens@.skip(i + 1));
                assert(bs.take(i + 1).drop_last() =~= bs.take(i as int));
            }
            self.add_token(token.as_bytes());
            i += 1;
        }
        proof {
            assert(bs.take(tokens@.len() as int) =~= bs);
        }
    }
}

impl Trie {
    /// The children of the last node of `path`, provided the path starts at
    /// a child of the root.
    pub fn valid_next_nodes(&self, path: Vec<u64>) -> (res: Option<&Vec<u64>>)
        requires
            path@.len() > 0 ==> self.spec_has_children(self.spec_root()),
        ensures
            path@.len() == 0 ==> res is None,
            path@.len() > 0 && !self.spec_children(self.spec_root()).contains(path@[0]) ==> res is None,
            path@.len() > 0 && self.spec_children(self.spec_root()).contains(path@[0]) ==> {
                &&& res is Some <==> self.spec_has_children(path@.last())
                &&& res matches Some(v) ==> v@ == self.spec_children(path@.last())
            },
    {
        if path.len() == 0 {
            return None;
        }
        let root_children = self.children.get(&self.root_id).unwrap();
        let mut k: usize = 0;
        let mut rooted = false;
        while k < root_children.len()
            invariant_except_break
                !rooted,
            invariant
                k <= root_children@.len(),
                root_children@ == self.spec_children(self.spec_root()),
                path@.len() > 0,
                forall|q: int| 0 <= q < k ==> root_children@[q] != path@[0],
            ensures
                rooted <==> root_children@.contains(path@[0]),
            decreases root_children.len() - k,
        {
            if root_children[k] == path[0] {
                rooted = true;
                break;
            }
            k += 1;
        }
        if !rooted {
            return None;
        }
        self.children.get(&path[path.len() - 1])
    }

    /// The bytes that may follow `prefix`: those on the children of the node
    /// that spells `prefix`, in the order the children were attached. `None`
    /// when `prefix` is not spelled or nothing follows it.
    pub fn valid_next_bytes(&self, prefix: &[u8]) -> (res: Option<Vec<&u8>>)
        requires
            self.wf(),
            prefix@.len() > 0 || !self.spec_has_children(self.spec_root()),
        ensures
            match self.spec_next_bytes(prefix@) {
                None => res is None,
                Some(bs) => res matches Some(v) && v@.len() == bs.len() && forall|i: int|
                    0 <= i < bs.len() ==> *v@[i] == bs[i],
            },
            res is Some <==> self@.paths.contains(prefix@) && exists|b: u8| #[trigger] self@.paths.contains(
                prefix@.push(b),
            ),
            res matches Some(v) ==> forall|b: u8| #[trigger] offers(v@, b) <==> self@.paths.contains(
                prefix@.push(b),
            ),
    {
        proof {
            self.law_next_bytes_extend_paths(prefix@);
            assert(prefix@.take(0) =~= Seq::<u8>::empty());
            assert(self.index@.contains_key(self.labels@[0]));
            self.lemma_match_props(prefix@, 0);
            assert(prefix@.take(prefix@.len() as int) =~= prefix@);
            if prefix@.len() > 0 && self@.paths.contains(prefix@) {
                assert(prefix@.take(1).drop_last() =~= prefix@.take(0));
                assert(self.index@.contains_key(prefix@.take(1)));
            }
        }
        let root_children = match self.children.get(&self.root_id) {
            Some(c) => c,
            None => {
                return None;
            },
        };
        let mut root_children_bytes: Vec<u8> = Vec::new();
        let mut k: usize = 0;
        while k < root_children.len()
            invariant
                self.wf(),
                k <= root_children@.len(),
                root_children@ == self.spec_children(self.spec_root()),
                self.spec_has_children(self.spec_root()),
                root_children_bytes@ =~= self.spec_path_bytes(root_children@.take(k as int)),
            decreases root_children.len() - k,
        {
            let id = root_children[k];
            proof {
                assert(self.children@[0]@[k as int] == id);
                assert(root_children@.take(k + 1) =~= root_children@.take(k as int).push(id));
            }
            root_children_bytes.push(self.nodes.get(&id).unwrap().value);
            k += 1;
        }
        proof {
            assert(root_children@.take(root_children@.len() as int) =~= root_children@);
        }
        let mut found = false;
        let mut q: usize = 0;
        while q < root_children_bytes.len()
            invariant_except_break
                !found,
            invariant
                q <= root_children_bytes@.len(),
                prefix@.len() > 0,
                forall|r: int| 0 <= r < q ==> root_children_bytes@[r] != prefix@[0],
            ensures
                found <==> root_children_bytes@.contains(prefix@[0]),
            decreases root_children_bytes.len() - q,
        {
            if root_children_bytes[q] == prefix[0] {
                found = true;
                break;
            }
            q += 1;
        }
        proof {
            let s1 = prefix@.take(1);
            assert(s1.drop_last() =~= Seq::<u8>::empty());
            if self.index@.contains_key(s1) {
                let c = self.index@[s1];
                let i = choose|i: int| 0 <= i < root_children@.len() && root_children@[i] == c;
                assert(self.labels@[c] == s1);
                assert(root_children_bytes@[i] == prefix@[0]);
            }
        }
        if !found {
            return None;
        }
        let path = self.bytes_to_path(prefix);
        match path {
            Some(path) => {
                if path.len() < prefix.len() {
                    return None;
                }
                let last_index = path.len().checked_sub(1);
                if let Some(last_index) = last_index {
                    let next = match self.children.get(&path[last_index]) {
                        Some(c) => c,
                        None => {
                            return None;
                        },
                    };
                    let mut res: Vec<&u8> = Vec::new();
                    let mut i: usize = 0;
                    while i < next.len()
                        invariant
                            self.wf(),
                            i <= next@.len(),
                            last_index < path@.len(),
                            self.children@.contains_key(path@[last_index as int]),
                            next@ == self.children@[path@[last_index as int]]@,
                            res@.len() == i,
                            forall|j: int| 0 <= j < i ==> *res@[j] == self.nodes@[next@[j]].value,
                        decreases next.len() - i,
                    {
                        let child_id = next[i];
                        proof {
                            assert(self.children@[path@[last_index as int]]@[i as int] == child_id);
                        }
                        res.push(&self.nodes.get(&child_id).unwrap().value);
                        i += 1;
                    }
                    proof {
                        assert(path@[last_index as int] == self.index@[prefix@.take(prefix@.len() as int)]);
                        assert(self.spec_next_bytes(prefix@) == Some(self.spec_path_bytes(next@)));
                        self.lemma_next_bytes_listed(prefix@, res@);
                        assert(forall|b: u8| #[trigger] offers(res@, b) <==> self@.paths.contains(prefix@.push(b)));
                    }
                    return Some(res);
                }
                return None;
            },
            None => None,
        }
    }
}

/// Whether some entry of `v` refers to the byte `b`.
#[verifier::opaque]
pub open spec fn offers(v: Seq<&u8>, b: u8) -> bool {
    exists|i: int| 0 <= i < v.len() && *v[i] == b
}

/// The last node of each path.
pub open spec fn path_ends(st: Seq<Vec<u64>>) -> Seq<u64> {
    st.map_values(|p: Vec<u64>| p@.last())
}

impl Trie {
    /// Every token that starts with `prefix` (`prefix` itself included, when
    /// it is a token), each once: depth first from the node that spells
    /// `prefix`, a node's own token before those below it, children in the
    /// order they were attached. `None` when `prefix` is not spelled.
    pub fn find_tokens_with_prefix(&self, prefix: &[u8]) -> (res: Option<Vec<Vec<u8>>>)
        requires
            self.wf(),
            prefix@.len() > 0,
        ensures
            res is Some <==> self@.paths.contains(prefix@),
            res matches Some(v) ==> {
                &&& v.deep_view() == self.spec_tokens_below(self.spec_node_for(prefix@))
                &&& v.deep_view().no_duplicates()
                &&& forall|x: Seq<u8>| #[trigger] v.deep_view().contains(x) <==> self@.terminals.contains(x)
                    && is_prefix_of(prefix@, x)
            },
    {
        let path = self.bytes_to_path(prefix);
        proof {
            assert(prefix@.take(0) =~= Seq::<u8>::empty());
            assert(self.index@.contains_key(self.labels@[0]));
            self.lemma_match_props(prefix@, 0);
            assert(prefix@.take(prefix@.len() as int) =~= prefix@);
            if self@.paths.contains(prefix@) {
                assert(prefix@.take(1).drop_last() =~= prefix@.take(0));
                assert(self.index@.contains_key(prefix@.take(1)));
            }
        }
        match path {
            Some(root_path) => {
                if root_path.len() < prefix.len() {
                    return None;
                }
                let ghost start = self.index@[prefix@];
                proof {
                    self.lemma_start_path(prefix@);
                    assert(self.labels@[start] == prefix@);
                    self.law_found_tokens_extend_label(start);
                }
                let mut temp_token_paths: Vec<Vec<u64>> = Vec::new();
                temp_token_paths.push(root_path);
                let mut final_token_paths: Vec<Vec<u64>> = Vec::new();
                proof {
                    assert(root_path@.last() == start);
                    assert(path_ends(temp_token_paths@) =~= seq![start]);
                    assert(seq![start].drop_last() =~= Seq::<u64>::empty());
                    assert(seq![start].last() == start);
                    assert(self.stack_tokens(seq![start]) == self.spec_tokens_below(start) + self.stack_tokens(Seq::<u64>::empty()));
                    assert(self.spec_tokens_below(start) + Seq::<Seq<u8>>::empty() =~= self.spec_tokens_below(start));
                    assert(Seq::<Seq<u8>>::empty() + self.spec_tokens_below(start) =~= self.spec_tokens_below(start));
                    assert(path_ends(temp_token_paths@).drop_last() =~= Seq::<u64>::empty());
                    assert(final_token_paths@.map_values(|p: Vec<u64>| self.labels@[p@.last()]) =~= Seq::<Seq<u8>>::empty());
                }
                loop
                    invariant
                        self.wf(),
                        forall|i: int| 0 <= i < temp_token_paths@.len() ==> self.is_token_path(#[trigger] temp_token_paths@[i]@),
                        forall|i: int| 0 <= i < final_token_paths@.len() ==> self.is_token_path(#[trigger] final_token_paths@[i]@),
                        final_token_paths@.map_values(|p: Vec<u64>| self.labels@[p@.last()]) + self.stack_tokens(path_ends(temp_token_paths@))
                            == self.spec_tokens_below(start),
                    ensures
                        final_token_paths@.map_values(|p: Vec<u64>| self.labels@[p@.last()]) == self.spec_tokens_below(start),
                        forall|i: int| 0 <= i < final_token_paths@.len() ==> self.is_token_path(#[trigger] final_token_paths@[i]@),
                    decreases self.stack_visits(path_ends(temp_token_paths@)),
                {
                    let ghost before = temp_token_paths@;
                    let ghost finals = final_token_paths@;
                    match temp_token_paths.pop() {
                        None => {
                            proof {
                                assert(path_ends(temp_token_paths@) =~= Seq::<u64>::empty());
                                assert(final_token_paths@.map_values(|p: Vec<u64>| self.labels@[p@.last()]) + Seq::<Seq<u8>>::empty()
                                    =~= final_token_paths@.map_values(|p: Vec<u64>| self.labels@[p@.last()]));
                            }
                            break;
                        },
                        Some(path) => {
                            proof {
                                assert(path_ends(temp_token_paths@) =~= path_ends(before).drop_last());
                                assert(before.last() == path);
                                assert(self.is_token_path(before[before.len() - 1]@));
                            }
                            let last = path[path.len() - 1];
                            let is_terminal = self.nodes.get(&last)?.is_terminal;
                            if is_terminal {
                                let found = path.clone();
                                proof {
                                    assert(found@ =~= path@);
                                }
                                final_token_paths.push(found);
                            }
                            let ghost rest = temp_token_paths@;
                            let ghost f = self.depth_left(last);
                            let ghost head: Seq<Seq<u8>> = if is_terminal {
                                seq![self.labels@[last]]
                            } else {
                                Seq::empty()
                            };
                            proof {
                                assert(self.labels@[last].len() <= last);
                                assert(f >= 1);
                                let a = finals.map_values(|p: Vec<u64>| self.labels@[p@.last()]);
                                assert(final_token_paths@.map_values(|p: Vec<u64>| self.labels@[p@.last()]) =~= a + head);
                                assert(self.spec_tokens_below(last) == head + self.tokens_in(self.spec_children(last), (f - 1) as nat));
                            }
                            match self.valid_next_nodes(path.clone()) {
                                Some(next_nodes) => {
                                    proof {
                                        assert(next_nodes@.skip(next_nodes@.len() as int) =~= Seq::<u64>::empty());
                                        assert(temp_token_paths@.take(rest.len() as int) =~= rest);
                                    }
                                    let mut i: usize = next_nodes.len();
                                    while i > 0
                                        invariant
                                            self.wf(),
                                            i <= next_nodes@.len(),
                                            next_nodes@ == self.spec_children(last),
                                            self.is_token_path(path@),
                                            last == path@.last(),
                                            f == self.depth_left(last),
                                            f >= 1,
                                            temp_token_paths@.len() >= rest.len(),
                                            temp_token_paths@.take(rest.len() as int) == rest,
                                            forall|q: int| 0 <= q < temp_token_paths@.len() ==> self.is_token_path(#[trigger] temp_token_paths@[q]@),
                                            self.stack_tokens(path_ends(temp_token_paths@)) == self.tokens_in(next_nodes@.skip(i as int), (f - 1) as nat)
                                                + self.stack_tokens(path_ends(rest)),
                                            self.stack_visits(path_ends(temp_token_paths@)) == self.visits_in(next_nodes@.skip(i as int), (f - 1) as nat)
                                                + self.stack_visits(path_ends(rest)),
                                        decreases i,
                                    {
                                        i -= 1;
                                        let node = next_nodes[i];
                                        let mut path_copy = path.clone();
                                        proof {
                                            assert(path_copy@ =~= path@);
                                        }
                                        path_copy.push(node);
                                        proof {
                                            assert(self.spec_children(last)[i as int] == node);
                                            self.lemma_extend_token_path(path@, node);
                                            assert(next_nodes@.skip(i as int).drop_first() =~= next_nodes@.skip(i + 1));
                                            assert(next_nodes@.skip(i as int)[0] == node);
                                            assert(path@.push(node).last() == node);
                                        }
                                        let ghost old_stack = temp_token_paths@;
                                        temp_token_paths.push(path_copy);
                                        proof {
                                            assert(path_ends(temp_token_paths@).drop_last() =~= path_ends(old_stack));
                                            assert(temp_token_paths@.take(rest.len() as int) =~= old_stack.take(rest.len() as int));
                                        }
                                    }
                                    proof {
                                        assert(next_nodes@.skip(0) =~= next_nodes@);
                                        let a = finals.map_values(|p: Vec<u64>| self.labels@[p@.last()]);
                                        let b = self.tokens_in(next_nodes@, (f - 1) as nat);
                                        let c = self.stack_tokens(path_ends(rest));
                                        assert((a + head) + (b + c) =~= a + ((head + b) + c));
                                    }
                                },
                                None => {
                                    if !is_terminal {
                                        return None;
                                    }
                                    proof {
                                        assert(self.spec_children(last) == Seq::<u64>::empty());
                                        assert(self.tokens_in(Seq::<u64>::empty(), (f - 1) as nat) == Seq::<Seq<u8>>::empty());
                                        assert(head + Seq::<Seq<u8>>::empty() =~= head);
                                        let a = finals.map_values(|p: Vec<u64>| self.labels@[p@.last()]);
                                        let c = self.stack_tokens(path_ends(rest));
                                        assert((a + head) + c =~= a + (head + c));
                                    }
                                },
                            }
                        },
                    }
                }
                let mut tokens: Vec<Vec<u8>> = Vec::new();
                let mut j: usize = 0;
                while j < final_token_paths.len()
                    invariant
                        self.wf(),
                        j <= final_token_paths@.len(),
                        forall|i: int| 0 <= i < final_token_paths@.len() ==> self.is_token_path(#[trigger] final_token_paths@[i]@),
                        tokens@.len() == j,
                        forall|i: int| 0 <= i < j ==> (#[trigger] tokens@[i])@ == self.labels@[final_token_paths@[i]@.last()],
                    decreases final_token_paths.len() - j,
                {
                    let token = self.traverse_path(&final_token_paths[j]);
                    tokens.push(token);
                    j += 1;
                }
                proof {
                    assert forall|i: int| 0 <= i < tokens@.len() implies #[trigger] tokens.deep_view()[i]
                        == final_token_paths@.map_values(|p: Vec<u64>| self.labels@[p@.last()])[i] by {
                        assert(tokens@[i].deep_view() =~= tokens@[i]@);
                    }
                    assert(tokens.deep_view() =~= final_token_paths@.map_values(|p: Vec<u64>| self.labels@[p@.last()]));
                }
                Some(tokens)
            },
            None => None,
        }
    }
}

impl Trie {
    /// The number of nodes, the root included.
    pub fn node_count(&self) -> (n: usize)
        requires
            self.wf(),
        ensures
            n == self.spec_node_count(),
    {
        proof {
            let r = vstd::set_lib::set_int_range(0, self.next_id as int);
            let f = |k: int| k as u64;
            vstd::set_lib::lemma_int_range(0, self.next_id as int);
            assert forall|k: u64| #[trigger] self.nodes@.dom().contains(k) implies r.map(f).contains(k) by {
                assert(r.contains(k as int));
                assert(f(k as int) == k);
            }
            assert(self.nodes@.dom() =~= r.map(f));
            assert(vstd::relations::injective_on(f, r));
            vstd::set_lib::lemma_map_size(r, self.nodes@.dom(), f);
        }
        self.nodes.len()
    }

    /// All nodes, in the order they were created.
    pub fn nodes(&self) -> (res: Vec<&Node>)
        requires
            self.wf(),
        ensures
            res@.len() == self.spec_node_count(),
            forall|i: int| 0 <= i < res@.len() ==> *res@[i] == self.spec_node(i as u64),
    {
        let mut res: Vec<&Node> = Vec::new();
        let mut id: u64 = 0;
        while id < self.next_id
            invariant
                self.wf(),
                id <= self.next_id,
                res@.len() == id,
                forall|i: int| 0 <= i < id ==> *res@[i] == self.nodes@[i as u64],
            decreases self.next_id - id,
        {
            res.push(self.nodes.get(&id).unwrap());
            id += 1;
        }
        res
    }

    /// The children of `id`, if it has any.
    pub fn children_of(&self, id: u64) -> (res: Option<&Vec<u64>>)
        ensures
            res is Some <==> self.spec_has_children(id),
            res matches Some(v) ==> v@ == self.spec_children(id),
    {
        self.children.get(&id)
    }
}

/// The model of a trie holding no token: the empty string alone is spelled.
pub open spec fn empty_model() -> TrieModel {
    TrieModel { paths: set![Seq::<u8>::empty()], terminals: Set::empty() }
}

/// Inserting a token twice changes nothing the second time.
pub proof fn law_insert_idempotent(m: TrieModel, t: Seq<u8>)
    ensures
        m.with_token(t).with_token(t) == m.with_token(t),
{
    assert(prefixes(t).contains(t)) by {
        assert(t == t.take(t.len() as int));
    }
    assert(m.with_token(t).paths.union(prefixes(t)) =~= m.with_token(t).paths);
    assert(m.with_token(t).with_token(t).terminals =~= m.with_token(t).terminals);
}

/// Inserting a token keeps every spelled string and every token, spells
/// the token, and makes it a token unless it is empty.
pub proof fn law_insert_monotone(m: TrieModel, t: Seq<u8>)
    ensures
        m.paths.subset_of(m.with_token(t).paths),
        m.terminals.subset_of(m.with_token(t).terminals),
        m.with_token(t).paths.contains(t),
        t.len() > 0 ==> m.with_token(t).terminals.contains(t),
{
    assert(t == t.take(t.len() as int));
}

/// Starting from an empty trie, the spelled strings are the empty one and
/// the prefixes of the inserted tokens.
pub proof fn law_paths_are_token_prefixes(ts: Seq<Seq<u8>>)
    ensures
        empty_model().with_tokens(ts).paths == Set::new(
            |s: Seq<u8>| s.len() == 0 || exists|i: int| 0 <= i < ts.len() && #[trigger] prefixes(ts[i]).contains(s),
        ),
    decreases ts.len(),
{
    let target = Set::new(
        |s: Seq<u8>| s.len() == 0 || exists|i: int| 0 <= i < ts.len() && #[trigger] prefixes(ts[i]).contains(s),
    );
    if ts.len() == 0 {
        assert forall|s: Seq<u8>| empty_model().with_tokens(ts).paths.contains(s) <==> target.contains(s) by {
            if s.len() == 0 {
                assert(s =~= Seq::<u8>::empty());
            }
        }
        assert(empty_model().with_tokens(ts).paths =~= target);
    } else {
        let init = ts.drop_last();
        law_paths_are_token_prefixes(init);
        let got = empty_model().with_tokens(ts).paths;
        assert forall|s: Seq<u8>| got.contains(s) <==> target.contains(s) by {
            if got.contains(s) && s.len() > 0 {
                if prefixes(ts.last()).contains(s) {
                    assert(prefixes(ts[ts.len() - 1]).contains(s));
                } else {
                    let i = choose|i: int| 0 <= i < init.len() && #[trigger] prefixes(init[i]).contains(s);
                    assert(prefixes(ts[i]).contains(s));
                }
            }
            if target.contains(s) && s.len() > 0 {
                let i = choose|i: int| 0 <= i < ts.len() && #[trigger] prefixes(ts[i]).contains(s);
                if i < ts.len() - 1 {
                    assert(prefixes(init[i]).contains(s));
                }
            }
        }
        assert(got =~= target);
    }
}

/// Starting from an empty trie, the tokens are the non-empty strings that
/// were inserted.
pub proof fn law_tokens_are_inserted_strings(ts: Seq<Seq<u8>>)
    ensures
        empty_model().with_tokens(ts).terminals == Set::new(|s: Seq<u8>| s.len() > 0 && ts.contains(s)),
    decreases ts.len(),
{
    let target = Set::new(|s: Seq<u8>| s.len() > 0 && ts.contains(s));
    if ts.len() == 0 {
        assert(empty_model().with_tokens(ts).terminals =~= target);
    } else {
        let init = ts.drop_last();
        law_tokens_are_inserted_strings(init);
        let got = empty_model().with_tokens(ts).terminals;
        assert forall|s: Seq<u8>| got.contains(s) <==> target.contains(s) by {
            if init.contains(s) {
                let i = choose|i: int| 0 <= i < init.len() && init[i] == s;
                assert(ts[i] == s);
            }
            if ts.contains(s) && s != ts.last() {
                let i = choose|i: int| 0 <= i < ts.len() && ts[i] == s;
                assert(init[i] == s);
            }
            if s == ts.last() {
                assert(ts[ts.len() - 1] == s);
            }
        }
        assert(got =~= target);
    }
}

impl Trie {
    /// Every spelled string has a node of its own: the nodes are as many as
    /// the distinct spelled strings, the empty one (the root) included.
    pub proof fn law_one_node_per_path(self)
        requires
            self.wf(),
        ensures
            self@.paths.finite(),
            self.spec_node_count() == self@.paths.len(),
    {
        let r = vstd::set_lib::set_int_range(0, self.next_id as int);
        let f = |k: int| self.labels@[k as u64];
        vstd::set_lib::lemma_int_range(0, self.next_id as int);
        assert forall|s: Seq<u8>| #[trigger] self.index@.dom().contains(s) implies r.map(f).contains(s) by {
            let k = self.index@[s];
            assert(r.contains(k as int));
            assert(f(k as int) == s);
        }
        assert forall|s: Seq<u8>| #[trigger] r.map(f).contains(s) implies self.index@.dom().contains(s) by {
            let k = choose|k: int| r.contains(k) && f(k) == s;
            assert(self.index@.contains_key(self.labels@[k as u64]));
        }
        assert(self.index@.dom() =~= r.map(f));
        assert forall|a: int, b: int| r.contains(a) && r.contains(b) && #[trigger] f(a) == #[trigger] f(b) implies a == b by {
            assert(self.index@.contains_key(self.labels@[a as u64]));
            assert(self.index@.contains_key(self.labels@[b as u64]));
            assert(self.index@[self.labels@[a as u64]] == a as u64);
            assert(self.index@[self.labels@[b as u64]] == b as u64);
        }
        assert(vstd::relations::injective_on(f, r));
        vstd::set_lib::lemma_map_size(r, self.index@.dom(), f);
    }

    /// The nodes are stored under the ids below the node count, each under
    /// its own id; the root is one of them and ends no token.
    pub proof fn law_node_ids(self)
        requires
            self.wf(),
        ensures
            forall|id: u64| #[trigger] self.spec_has_node(id) <==> id < self.spec_node_count(),
            forall|id: u64| id < self.spec_node_count() ==> #[trigger] self.spec_node(id).id == id,
            self.spec_root() == 0,
            self.spec_has_node(self.spec_root()),
            !self.spec_node(self.spec_root()).is_terminal,
            self.spec_next_id() == self.spec_node_count(),
    {
    }

    /// Each spelled string leads to a node that spells it, and each node
    /// spells a string that leads back to it; the root spells the empty
    /// string; a child spells the string of its parent and its own byte; a
    /// spelled string ends a token when its node is marked so; and the
    /// prefixes of a spelled string are spelled.
    pub proof fn law_spelling(self)
        requires
            self.wf(),
        ensures
            forall|s: Seq<u8>| #[trigger] self@.paths.contains(s) ==> self.spec_node_for(s) < self.spec_node_count()
                && self.spec_label(self.spec_node_for(s)) == s,
            forall|id: u64| id < self.spec_node_count() ==> self@.paths.contains(#[trigger] self.spec_label(id))
                && self.spec_node_for(self.spec_label(id)) == id,
            forall|s: Seq<u8>| #[trigger] self@.terminals.contains(s) <==> self@.paths.contains(s) && self.spec_node(
                self.spec_node_for(s),
            ).is_terminal,
            self.spec_node_for(Seq::empty()) == self.spec_root(),
            forall|s: Seq<u8>, j: int| #[trigger] self@.paths.contains(s) && 0 <= j <= s.len() ==> self@.paths.contains(
                #[trigger] s.take(j),
            ),
            forall|id: u64, i: int| 0 <= i < self.spec_children(id).len() ==> {
                let c = #[trigger] self.spec_children(id)[i];
                &&& id < c < self.spec_node_count()
                &&& self.spec_label(c) == self.spec_label(id).push(self.spec_node(c).value)
            },
    {
        assert(self.index@.contains_key(self.labels@[0]));
        assert forall|id: u64, i: int| 0 <= i < self.spec_children(id).len() implies {
            let c = #[trigger] self.spec_children(id)[i];
            &&& id < c < self.spec_node_count()
            &&& self.spec_label(c) == self.spec_label(id).push(self.spec_node(c).value)
        } by {
            assert(self.children@[id]@[i] == self.spec_children(id)[i]);
        }
    }

    /// The shape of the trie: a node has children exactly when a one-byte
    /// extension of its string is spelled; its children are the nodes of
    /// those extensions, each once, so siblings carry distinct bytes; every
    /// node but the root has exactly one parent, the node of its string
    /// without the last byte; the root is no one's child; and a node other
    /// than the root that has no children ends a token.
    pub proof fn law_children(self)
        requires
            self.wf(),
        ensures
            forall|id: u64| #[trigger] self.spec_has_children(id) ==> id < self.spec_node_count()
                && self.spec_children(id).len() > 0,
            forall|id: u64|
                id < self.spec_node_count() ==> (#[trigger] self.spec_has_children(id) <==> exists|b: u8|
                    #[trigger] self@.paths.contains(self.spec_label(id).push(b))),
            forall|id: u64, b: u8|
                id < self.spec_node_count() && #[trigger] self@.paths.contains(self.spec_label(id).push(b))
                    ==> self.spec_children(id).contains(self.spec_node_for(self.spec_label(id).push(b))),
            forall|id: u64, i: int|
                0 <= i < self.spec_children(id).len() ==> #[trigger] self.spec_children(id)[i] == self.spec_node_for(
                    self.spec_label(id).push(self.spec_node(self.spec_children(id)[i]).value),
                ),
            forall|id: u64| #[trigger] self.spec_children(id).no_duplicates(),
            forall|id: u64, i: int, j: int|
                0 <= i < self.spec_children(id).len() && 0 <= j < self.spec_children(id).len() && i != j
                    ==> self.spec_node(#[trigger] self.spec_children(id)[i]).value != self.spec_node(
                    #[trigger] self.spec_children(id)[j],
                ).value,
            forall|p: u64, q: u64, i: int, j: int|
                0 <= i < self.spec_children(p).len() && 0 <= j < self.spec_children(q).len() && #[trigger] self.spec_children(
                    p,
                )[i] == #[trigger] self.spec_children(q)[j] ==> p == q,
            forall|id: u64, i: int| 0 <= i < self.spec_children(id).len() ==> #[trigger] self.spec_children(id)[i] != self.spec_root(),
            forall|k: u64|
                0 < k < self.spec_node_count() ==> self.spec_children(
                    self.spec_node_for(#[trigger] self.spec_label(k).drop_last()),
                ).contains(k),
            forall|k: u64|
                0 < k < self.spec_node_count() && !#[trigger] self.spec_has_children(k) ==> self.spec_node(k).is_terminal,
    {
        assert forall|id: u64| #[trigger] self.spec_has_children(id) implies id < self.spec_node_count()
            && self.spec_children(id).len() > 0 by {}
        assert forall|id: u64, i: int|
            0 <= i < self.spec_children(id).len() implies #[trigger] self.spec_children(id)[i] == self.spec_node_for(
                self.spec_label(id).push(self.spec_node(self.spec_children(id)[i]).value),
            ) by {
            let c = self.spec_children(id)[i];
            assert(self.children@[id]@[i] == c);
            assert(self.index@.contains_key(self.labels@[c]));
        }
        assert forall|id: u64| id < self.spec_node_count() implies (#[trigger] self.spec_has_children(id) <==> exists|b: u8|
            #[trigger] self@.paths.contains(self.spec_label(id).push(b))) by {
            let l = self.labels@[id];
            if self.children@.contains_key(id) {
                let c = self.children@[id]@[0];
                assert(self.labels@[c] == l.push(self.nodes@[c].value));
                assert(self.index@.contains_key(self.labels@[c]));
                assert(self@.paths.contains(self.spec_label(id).push(self.nodes@[c].value)));
            }
            if exists|b: u8| #[trigger] self@.paths.contains(self.spec_label(id).push(b)) {
                let b = choose|b: u8| #[trigger] self@.paths.contains(self.spec_label(id).push(b));
                assert(l.push(b).drop_last() =~= l);
                assert(self.index@.contains_key(self.labels@[id]));
            }
        }
        assert forall|id: u64, b: u8|
            id < self.spec_node_count() && #[trigger] self@.paths.contains(self.spec_label(id).push(b)) implies self.spec_children(
            id).contains(self.spec_node_for(self.spec_label(id).push(b))) by {
            let l = self.labels@[id];
            assert(l.push(b).drop_last() =~= l);
            assert(self.index@.contains_key(self.labels@[id]));
        }
        assert forall|id: u64| #[trigger] self.spec_children(id).no_duplicates() by {}
        assert forall|id: u64, i: int, j: int|
            0 <= i < self.spec_children(id).len() && 0 <= j < self.spec_children(id).len() && i != j implies self.spec_node(
            #[trigger] self.spec_children(id)[i]).value != self.spec_node(#[trigger] self.spec_children(id)[j]).value by {
            let a = self.children@[id]@[i];
            let c = self.children@[id]@[j];
            if self.nodes@[a].value == self.nodes@[c].value {
                assert(self.labels@[a] == self.labels@[c]);
                assert(self.index@.contains_key(self.labels@[a]));
                assert(self.index@.contains_key(self.labels@[c]));
            }
        }
        assert forall|p: u64, q: u64, i: int, j: int|
            0 <= i < self.spec_children(p).len() && 0 <= j < self.spec_children(q).len() && #[trigger] self.spec_children(
                p,
            )[i] == #[trigger] self.spec_children(q)[j] implies p == q by {
            let c = self.children@[p]@[i];
            assert(self.children@[q]@[j] == c);
            assert(self.labels@[p] =~= self.labels@[c].drop_last());
            assert(self.labels@[q] =~= self.labels@[c].drop_last());
            assert(self.index@.contains_key(self.labels@[p]));
            assert(self.index@.contains_key(self.labels@[q]));
        }
        assert forall|id: u64, i: int| 0 <= i < self.spec_children(id).len() implies #[trigger] self.spec_children(id)[i]
            != self.spec_root() by {
            assert(self.children@[id]@[i] > id);
        }
        assert forall|k: u64| 0 < k < self.spec_node_count() implies self.spec_children(
            self.spec_node_for(#[trigger] self.spec_label(k).drop_last()),
        ).contains(k) by {
            assert(self.index@.contains_key(self.labels@[k]));
            assert(self.labels@[k].len() > 0);
        }
    }

    /// How the tokens found from a node are laid out: the node's own token
    /// first, when it ends one, then the tokens found from each child in
    /// the order the children were attached.
    pub proof fn law_tokens_below_unfold(self, n: u64)
        requires
            self.wf(),
            self.spec_has_node(n),
        ensures
            self.spec_tokens_below(n) == (if self.spec_node(n).is_terminal {
                seq![self.spec_label(n)]
            } else {
                Seq::<Seq<u8>>::empty()
            }) + self.tokens_below_all(self.spec_children(n)),
    {
        let f = self.depth_left(n);
        assert(self.labels@[n].len() <= n);
        assert(f >= 1);
        self.lemma_children_extend(n);
        let ks = self.spec_children(n);
        assert forall|j: int| 0 <= j < ks.len() implies self.depth_left(#[trigger] ks[j]) == f - 1 by {
            assert(self.labels@[ks[j]].len() == self.labels@[n].len() + 1);
        }
        self.lemma_tokens_in_below_all(ks, (f - 1) as nat);
    }

    /// With every node of `ks` just `fuel` edges from the bottom, the
    /// search below them finds what it finds below each in turn.
    proof fn lemma_tokens_in_below_all(self, ks: Seq<u64>, fuel: nat)
        requires
            forall|j: int| 0 <= j < ks.len() ==> self.depth_left(#[trigger] ks[j]) == fuel,
        ensures
            self.tokens_in(ks, fuel) == self.tokens_below_all(ks),
        decreases ks.len(),
    {
        if ks.len() > 0 {
            let rest = ks.drop_first();
            assert forall|j: int| 0 <= j < rest.len() implies self.depth_left(#[trigger] rest[j]) == fuel by {
                assert(rest[j] == ks[j + 1]);
            }
            self.lemma_tokens_in_below_all(rest, fuel);
            assert(self.depth_left(ks[0]) == fuel);
        }
    }

    /// What `bytes_to_path` finds for `t`: the nodes spelling the longest
    /// spelled prefix of `t`, whose next byte (if any) is spelled nowhere;
    /// nothing when `t` is not empty and the root has no children.
    pub proof fn law_path_spells_longest_prefix(self, t: Seq<u8>)
        requires
            self.wf(),
        ensures
            0 <= self@.matched_len(t) <= t.len(),
            self@.paths.contains(t.take(self@.matched_len(t))),
            self@.matched_len(t) < t.len() ==> !self@.paths.contains(t.take(self@.matched_len(t) + 1)),
            t.len() > 0 && !self.spec_has_children(self.spec_root()) ==> self.spec_path_for(t) is None,
            t.len() == 0 || self.spec_has_children(self.spec_root()) ==> (self.spec_path_for(t) matches Some(p)
                && p.len() == self@.matched_len(t) && self.spec_path_bytes(p) == t.take(self@.matched_len(t))
                && forall|i: int| 0 <= i < p.len() ==> #[trigger] p[i] == self.spec_node_for(t.take(i + 1))
                && self.spec_has_node(p[i])),
            t.len() == 0 || self.spec_has_children(self.spec_root()) ==> (self.spec_path_for(t) matches Some(p) && (
            p.len() > 0 ==> self.spec_children(self.spec_root()).contains(p[0])) && forall|i: int|
                0 <= i < p.len() - 1 ==> self.spec_children(p[i]).contains(#[trigger] p[i + 1])),
    {
        assert(t.take(0) =~= Seq::<u8>::empty());
        assert(self.index@.contains_key(self.labels@[0]));
        self.lemma_match_props(t, 0);
        let m = self@.matched_len(t);
        if t.len() == 0 || self.children@.contains_key(self.root_id) {
            let p = Seq::new(m as nat, |i: int| self.index@[t.take(i + 1)]);
            if m >= 1 {
                self.lemma_start_path(t);
                assert forall|i: int| 0 <= i < p.len() - 1 implies self.spec_children(p[i]).contains(
                    #[trigger] p[i + 1],
                ) by {
                    let s = t.take(i + 2);
                    assert(self@.paths.contains(s));
                    assert(s.drop_last() =~= t.take(i + 1));
                }
            } else {
                assert(self.spec_path_bytes(p) =~= t.take(0));
            }
        }
    }

    /// A spelled, non-empty string is found whole: the path `bytes_to_path`
    /// returns for it spells it.
    pub proof fn law_spelled_string_is_found(self, t: Seq<u8>)
        requires
            self.wf(),
            self@.paths.contains(t),
            t.len() > 0,
        ensures
            self.spec_path_for(t) matches Some(p) && p.len() == t.len() && self.spec_path_bytes(p) == t,
    {
        self.law_path_spells_longest_prefix(t);
        assert(t.take(t.len() as int) =~= t);
        assert(t.take(1).drop_last() =~= t.take(0));
        assert(t.take(0) =~= Seq::<u8>::empty());
        assert(t.take(t.len() as int).take(1) =~= t.take(1));
        assert(self@.paths.contains(t.take(1)));
        assert(self.children@.contains_key(self.index@[t.take(1).drop_last()]));
        assert(self.index@.contains_key(self.labels@[0]));
    }

    /// The children of `n` spell the string of `n` and one byte more.
    proof fn lemma_children_extend(self, n: u64)
        requires
            self.wf(),
            n < self.next_id,
        ensures
            self.spec_children(n).no_duplicates(),
            forall|j: int| 0 <= j < self.spec_children(n).len() ==> #[trigger] self.spec_children(n)[j] < self.next_id
                && self.labels@[self.spec_children(n)[j]].len() == self.labels@[n].len() + 1
                && self.labels@[self.spec_children(n)[j]].take(self.labels@[n].len() as int) == self.labels@[n],
    {
        let ks = self.spec_children(n);
        let l = self.labels@[n];
        assert forall|j: int| 0 <= j < ks.len() implies #[trigger] ks[j] < self.next_id
            && self.labels@[ks[j]].len() == l.len() + 1 && self.labels@[ks[j]].take(l.len() as int) == l by {
            assert(self.children@[n]@[j] == ks[j]);
            assert(self.labels@[ks[j]] == l.push(self.nodes@[ks[j]].value));
            assert(l.push(self.nodes@[ks[j]].value).take(l.len() as int) =~= l);
        }
        if self.children@.contains_key(n) {
            assert(ks.no_duplicates());
        }
    }

    /// Each token found at or below `n` is a token that extends the string
    /// of `n`.
    proof fn lemma_tokens_at_sound(self, n: u64, fuel: nat)
        requires
            self.wf(),
            n < self.next_id,
        ensures
            forall|i: int| 0 <= i < self.tokens_at(n, fuel).len() ==> {
                let x = #[trigger] self.tokens_at(n, fuel)[i];
                &&& self@.terminals.contains(x)
                &&& is_prefix_of(self.labels@[n], x)
            },
        decreases fuel, 0nat,
    {
        let l = self.labels@[n];
        assert(self.index@.contains_key(self.labels@[n]));
        let head: Seq<Seq<u8>> = if self.nodes@[n].is_terminal {
            seq![l]
        } else {
            Seq::empty()
        };
        let tail: Seq<Seq<u8>> = if fuel == 0 {
            Seq::empty()
        } else {
            self.tokens_in(self.spec_children(n), (fuel - 1) as nat)
        };
        assert(self.tokens_at(n, fuel) == head + tail);
        if fuel > 0 {
            self.lemma_children_extend(n);
            self.lemma_tokens_in_sound(self.spec_children(n), (fuel - 1) as nat, l);
        }
        assert forall|i: int| 0 <= i < (head + tail).len() implies {
            let x = #[trigger] (head + tail)[i];
            &&& self@.terminals.contains(x)
            &&& is_prefix_of(l, x)
        } by {
            if i < head.len() {
                assert((head + tail)[i] == l);
                assert(l.take(l.len() as int) =~= l);
            } else {
                assert((head + tail)[i] == tail[i - head.len()]);
            }
        }
    }

    /// Each token found below `ks` extends the string of one of them, and
    /// so `pre` and one byte more.
    proof fn lemma_tokens_in_sound(self, ks: Seq<u64>, fuel: nat, pre: Seq<u8>)
        requires
            self.wf(),
            forall|j: int| 0 <= j < ks.len() ==> #[trigger] ks[j] < self.next_id && self.labels@[ks[j]].len()
                == pre.len() + 1 && self.labels@[ks[j]].take(pre.len() as int) == pre,
        ensures
            forall|i: int| 0 <= i < self.tokens_in(ks, fuel).len() ==> {
                let x = #[trigger] self.tokens_in(ks, fuel)[i];
                &&& self@.terminals.contains(x)
                &&& is_prefix_of(pre, x)
                &&& x.len() > pre.len()
                &&& exists|j: int| 0 <= j < ks.len() && is_prefix_of(#[trigger] self.labels@[ks[j]], x)
            },
        decreases fuel, ks.len(),
    {
        if ks.len() > 0 {
            let k = ks[0];
            let lk = self.labels@[k];
            self.lemma_tokens_at_sound(k, fuel);
            let rest = ks.drop_first();
            assert forall|j: int| 0 <= j < rest.len() implies #[trigger] rest[j] < self.next_id
                && self.labels@[rest[j]].len() == pre.len() + 1
                && self.labels@[rest[j]].take(pre.len() as int) == pre by {
                assert(rest[j] == ks[j + 1]);
            }
            self.lemma_tokens_in_sound(rest, fuel, pre);
            let a = self.tokens_at(k, fuel);
            let b = self.tokens_in(rest, fuel);
            assert(self.tokens_in(ks, fuel) == a + b);
            assert forall|i: int| 0 <= i < (a + b).len() implies {
                let x = #[trigger] (a + b)[i];
                &&& self@.terminals.contains(x)
                &&& is_prefix_of(pre, x)
                &&& x.len() > pre.len()
                &&& exists|j: int| 0 <= j < ks.len() && is_prefix_of(#[trigger] self.labels@[ks[j]], x)
            } by {
                if i < a.len() {
                    let x = a[i];
                    assert(is_prefix_of(lk, x));
                    assert(x.take(lk.len() as int).take(pre.len() as int) =~= x.take(pre.len() as int));
                    assert(is_prefix_of(self.labels@[ks[0]], x));
                } else {
                    let x = b[i - a.len()];
                    assert((a + b)[i] == x);
                    let j = choose|j: int| 0 <= j < rest.len() && is_prefix_of(#[trigger] self.labels@[rest[j]], x);
                    assert(rest[j] == ks[j + 1]);
                }
            }
        }
    }

    /// The tokens below each of `ks` are among those below all of them.
    proof fn lemma_tokens_in_covers(self, ks: Seq<u64>, fuel: nat, j: int)
        requires
            0 <= j < ks.len(),
        ensures
            forall|x: Seq<u8>| self.tokens_at(ks[j], fuel).contains(x) ==> #[trigger] self.tokens_in(ks, fuel).contains(x),
        decreases ks.len(),
    {
        let a = self.tokens_at(ks[0], fuel);
        let b = self.tokens_in(ks.drop_first(), fuel);
        assert(self.tokens_in(ks, fuel) == a + b);
        if j == 0 {
            assert forall|x: Seq<u8>| a.contains(x) implies #[trigger] (a + b).contains(x) by {
                let i = choose|i: int| 0 <= i < a.len() && a[i] == x;
                assert((a + b)[i] == x);
            }
        } else {
            self.lemma_tokens_in_covers(ks.drop_first(), fuel, j - 1);
            assert(ks.drop_first()[j - 1] == ks[j]);
            assert forall|x: Seq<u8>| b.contains(x) implies #[trigger] (a + b).contains(x) by {
                let i = choose|i: int| 0 <= i < b.len() && b[i] == x;
                assert((a + b)[a.len() + i] == x);
            }
        }
    }

    /// Every token that extends the string of `n`, and is not too deep for
    /// the fuel, is found at or below `n`.
    proof fn lemma_tokens_at_complete(self, n: u64, fuel: nat, x: Seq<u8>)
        requires
            self.wf(),
            n < self.next_id,
            self@.terminals.contains(x),
            is_prefix_of(self.labels@[n], x),
            x.len() < self.labels@[n].len() + fuel + 1,
        ensures
            self.tokens_at(n, fuel).contains(x),
        decreases fuel,
    {
        let l = self.labels@[n];
        assert(self.index@.contains_key(self.labels@[n]));
        let head: Seq<Seq<u8>> = if self.nodes@[n].is_terminal {
            seq![l]
        } else {
            Seq::empty()
        };
        let tail: Seq<Seq<u8>> = if fuel == 0 {
            Seq::empty()
        } else {
            self.tokens_in(self.spec_children(n), (fuel - 1) as nat)
        };
        assert(self.tokens_at(n, fuel) == head + tail);
        if x.len() == l.len() {
            assert(x =~= x.take(l.len() as int));
            assert(self.nodes@[n].is_terminal);
            assert((head + tail)[0] == l);
        } else {
            assert(l =~= x.take(l.len() as int));
            let s = x.take(l.len() as int + 1);
            assert(self.index@.contains_key(x));
            assert(self.index@.contains_key(s));
            assert(s.drop_last() =~= l);
            let c = self.index@[s];
            let ks = self.spec_children(n);
            let j = choose|j: int| 0 <= j < ks.len() && ks[j] == c;
            assert(self.children@[n]@[j] == c);
            assert(self.labels@[c] == s);
            assert(x.take(s.len() as int) =~= s);
            self.lemma_tokens_at_complete(c, (fuel - 1) as nat, x);
            self.lemma_tokens_in_covers(ks, (fuel - 1) as nat, j);
            assert(fuel > 0);
            assert(tail == self.tokens_in(ks, (fuel - 1) as nat));
            assert(tail.contains(x));
            let i = choose|i: int| 0 <= i < tail.len() && tail[i] == x;
            assert((head + tail)[head.len() + i] == x);
        }
    }

    /// No token is found twice at or below `n`.
    proof fn lemma_tokens_at_unique(self, n: u64, fuel: nat)
        requires
            self.wf(),
            n < self.next_id,
        ensures
            self.tokens_at(n, fuel).no_duplicates(),
        decreases fuel, 0nat,
    {
        let l = self.labels@[n];
        let head: Seq<Seq<u8>> = if self.nodes@[n].is_terminal {
            seq![l]
        } else {
            Seq::empty()
        };
        let tail: Seq<Seq<u8>> = if fuel == 0 {
            Seq::empty()
        } else {
            self.tokens_in(self.spec_children(n), (fuel - 1) as nat)
        };
        assert(self.tokens_at(n, fuel) == head + tail);
        if fuel > 0 {
            self.lemma_children_extend(n);
            self.lemma_tokens_in_unique(self.spec_children(n), (fuel - 1) as nat, l);
            self.lemma_tokens_in_sound(self.spec_children(n), (fuel - 1) as nat, l);
        }
        assert forall|i: int, j: int| 0 <= i < (head + tail).len() && 0 <= j < (head + tail).len() && i != j implies (
        head + tail)[i] != (head + tail)[j] by {
            if i >= head.len() {
                assert((head + tail)[i] == tail[i - head.len()]);
            }
            if j >= head.len() {
                assert((head + tail)[j] == tail[j - head.len()]);
            }
        }
    }

    /// No token is found twice below the distinct children `ks`.
    proof fn lemma_tokens_in_unique(self, ks: Seq<u64>, fuel: nat, pre: Seq<u8>)
        requires
            self.wf(),
            ks.no_duplicates(),
            forall|j: int| 0 <= j < ks.len() ==> #[trigger] ks[j] < self.next_id && self.labels@[ks[j]].len()
                == pre.len() + 1 && self.labels@[ks[j]].take(pre.len() as int) == pre,
        ensures
            self.tokens_in(ks, fuel).no_duplicates(),
        decreases fuel, ks.len(),
    {
        if ks.len() > 0 {
            let k = ks[0];
            let lk = self.labels@[k];
            let rest = ks.drop_first();
            assert forall|j: int| 0 <= j < rest.len() implies #[trigger] rest[j] < self.next_id
                && self.labels@[rest[j]].len() == pre.len() + 1
                && self.labels@[rest[j]].take(pre.len() as int) == pre by {
                assert(rest[j] == ks[j + 1]);
            }
            assert(rest.no_duplicates()) by {
                assert forall|i: int, j: int| 0 <= i < rest.len() && 0 <= j < rest.len() && i != j implies rest[i] != rest[j] by {
                    assert(rest[i] == ks[i + 1]);
                    assert(rest[j] == ks[j + 1]);
                }
            }
            self.lemma_tokens_at_unique(k, fuel);
            self.lemma_tokens_in_unique(rest, fuel, pre);
            self.lemma_tokens_at_sound(k, fuel);
            self.lemma_tokens_in_sound(rest, fuel, pre);
            let a = self.tokens_at(k, fuel);
            let b = self.tokens_in(rest, fuel);
            assert(self.tokens_in(ks, fuel) == a + b);
            assert forall|i: int, j: int| 0 <= i < (a + b).len() && 0 <= j < (a + b).len() && i != j implies (a
                + b)[i] != (a + b)[j] by {
                if i < a.len() && j >= a.len() {
                    let x = a[i];
                    let y = b[j - a.len()];
                    assert((a + b)[j] == y);
                    let q = choose|q: int| 0 <= q < rest.len() && is_prefix_of(#[trigger] self.labels@[rest[q]], y);
                    assert(is_prefix_of(lk, x));
                    if x == y {
                        assert(lk =~= x.take(pre.len() as int + 1));
                        assert(self.labels@[rest[q]] =~= y.take(pre.len() as int + 1));
                        assert(rest[q] == ks[q + 1]);
                        assert(self.index@.contains_key(self.labels@[k]));
                        assert(self.index@.contains_key(self.labels@[ks[q + 1]]));
                        assert(ks[0] != ks[q + 1]);
                    }
                } else if i >= a.len() && j < a.len() {
                    let x = a[j];
                    let y = b[i - a.len()];
                    assert((a + b)[i] == y);
                    let q = choose|q: int| 0 <= q < rest.len() && is_prefix_of(#[trigger] self.labels@[rest[q]], y);
                    assert(is_prefix_of(lk, x));
                    if x == y {
                        assert(lk =~= x.take(pre.len() as int + 1));
                        assert(self.labels@[rest[q]] =~= y.take(pre.len() as int + 1));
                        assert(rest[q] == ks[q + 1]);
                        assert(self.index@.contains_key(self.labels@[k]));
                        assert(self.index@.contains_key(self.labels@[ks[q + 1]]));
                        assert(ks[0] != ks[q + 1]);
                    }
                } else if i >= a.len() && j >= a.len() {
                    assert((a + b)[i] == b[i - a.len()]);
                    assert((a + b)[j] == b[j - a.len()]);
                }
            }
        }
    }

    /// What `find_tokens_with_prefix` reports from a node: every token that
    /// extends the string spelled to the node (that string included, when it
    /// is a token), each once.
    pub proof fn law_found_tokens_extend_label(self, n: u64)
        requires
            self.wf(),
            self.spec_has_node(n),
        ensures
            self.spec_tokens_below(n).no_duplicates(),
            forall|x: Seq<u8>| #[trigger] self.spec_tokens_below(n).contains(x) <==> self@.terminals.contains(x)
                && is_prefix_of(self.spec_label(n), x),
    {
        let f = self.depth_left(n);
        self.lemma_tokens_at_sound(n, f);
        self.lemma_tokens_at_unique(n, f);
        assert forall|x: Seq<u8>| #[trigger] self.spec_tokens_below(n).contains(x) <==> self@.terminals.contains(x)
            && is_prefix_of(self.spec_label(n), x) by {
            if self@.terminals.contains(x) && is_prefix_of(self.labels@[n], x) {
                let k = self.index@[x];
                assert(self.labels@[k].len() <= k);
                self.lemma_tokens_at_complete(n, f, x);
            }
            if self.spec_tokens_below(n).contains(x) {
                let i = choose|i: int| 0 <= i < self.spec_tokens_below(n).len() && self.spec_tokens_below(n)[i] == x;
            }
        }
    }

    /// A stored token is spelled, and the search from any non-empty prefix
    /// of it finds it.
    pub proof fn law_stored_token_is_found(self, t: Seq<u8>, p: Seq<u8>)
        requires
            self.wf(),
            self@.terminals.contains(t),
            is_prefix_of(p, t),
        ensures
            self@.paths.contains(t),
            self@.paths.contains(p),
            self.spec_tokens_below(self.spec_node_for(p)).contains(t),
    {
        assert(self.index@.contains_key(t));
        assert(self.index@.contains_key(t.take(p.len() as int)));
        let n = self.index@[p];
        assert(self.labels@[n] == p);
        self.law_found_tokens_extend_label(n);
    }

    /// A list holding the bytes `spec_next_bytes` finds holds exactly the
    /// bytes that extend `prefix` to a spelled string.
    proof fn lemma_next_bytes_listed(self, prefix: Seq<u8>, res: Seq<&u8>)
        requires
            self.wf(),
            self.spec_next_bytes(prefix) matches Some(bs) && res.len() == bs.len() && forall|i: int|
                0 <= i < bs.len() ==> *res[i] == bs[i],
        ensures
            forall|b: u8| #[trigger] offers(res, b) <==> self@.paths.contains(prefix.push(b)),
    {
        self.law_next_bytes_extend_paths(prefix);
        let bs = self.spec_next_bytes(prefix)->0;
        assert forall|b: u8| #[trigger] offers(res, b) <==> self@.paths.contains(prefix.push(b)) by {
            reveal(offers);
            if bs.contains(b) {
                let i = choose|i: int| 0 <= i < bs.len() && bs[i] == b;
                assert(*res[i] == b);
            }
            if exists|i: int| 0 <= i < res.len() && *res[i] == b {
                let i = choose|i: int| 0 <= i < res.len() && *res[i] == b;
                assert(bs[i] == b);
            }
        }
    }

    /// What `valid_next_bytes` offers after a spelled string: each byte
    /// that extends it to a spelled string, once; nothing when no byte does.
    pub proof fn law_next_bytes_extend_paths(self, prefix: Seq<u8>)
        requires
            self.wf(),
        ensures
            self.spec_next_bytes(prefix) is Some <==> self@.paths.contains(prefix) && exists|b: u8| #[trigger] self@.paths.contains(
                prefix.push(b),
            ),
            self.spec_next_bytes(prefix) matches Some(bs) ==> {
                &&& bs.no_duplicates()
                &&& forall|b: u8| bs.contains(b) <==> #[trigger] self@.paths.contains(prefix.push(b))
            },
    {
        if self@.paths.contains(prefix) {
            let n = self.index@[prefix];
            assert(self.labels@[n] == prefix);
            assert forall|b: u8| #[trigger] self@.paths.contains(prefix.push(b)) implies self.children@.contains_key(n)
                && self.children@[n]@.contains(self.index@[prefix.push(b)]) by {
                assert(prefix.push(b).drop_last() =~= prefix);
            }
            if self.children@.contains_key(n) {
                let ks = self.children@[n]@;
                let bs = self.spec_path_bytes(ks);
                let c = ks[0];
                assert(self.labels@[c] == prefix.push(self.nodes@[c].value));
                assert(self.index@.contains_key(self.labels@[c]));
                assert(self@.paths.contains(prefix.push(self.nodes@[c].value)));
                assert forall|b: u8| bs.contains(b) <==> #[trigger] self@.paths.contains(prefix.push(b)) by {
                    if bs.contains(b) {
                        let i = choose|i: int| 0 <= i < bs.len() && bs[i] == b;
                        assert(self.children@[n]@[i] == ks[i]);
                        assert(self.labels@[ks[i]] == prefix.push(b));
                        assert(self.index@.contains_key(self.labels@[ks[i]]));
                    }
                    if self@.paths.contains(prefix.push(b)) {
                        let s = prefix.push(b);
                        let c = self.index@[s];
                        let i = choose|i: int| 0 <= i < ks.len() && ks[i] == c;
                        assert(self.children@[n]@[i] == c);
                        assert(self.labels@[c] == s);
                        assert(bs[i] == b);
                    }
                }
                assert forall|i: int, j: int| 0 <= i < bs.len() && 0 <= j < bs.len() && i != j implies bs[i] != bs[j] by {
                    assert(self.children@[n]@[i] == ks[i]);
                    assert(self.children@[n]@[j] == ks[j]);
                    if bs[i] == bs[j] {
                        assert(self.labels@[ks[i]] == prefix.push(bs[i]));
                        assert(self.labels@[ks[j]] == prefix.push(bs[j]));
                        assert(self.index@.contains_key(self.labels@[ks[i]]));
                        assert(self.index@.contains_key(self.labels@[ks[j]]));
                        assert(self.index@[self.labels@[ks[i]]] == ks[i]);
                        assert(self.index@[self.labels@[ks[j]]] == ks[j]);
                    }
                }
            }
        }
    }
}

} // verus!

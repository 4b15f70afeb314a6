//! The cache as mathematics sees it: a tree of labelled nodes, with the
//! walk that finds a name in it and the change that stores one.

use crate::label::same_label;
use vstd::prelude::*;

verus! {

/// The most octets of record data that a node may hold: what the 16-bit
/// length of a resource record can say.
pub const MAX_PAYLOAD_LEN: usize = 0xffff;

/// A cache node, as mathematics sees it.
#[verifier::ext_equal]
pub struct Trie {
    pub label: Seq<u8>,
    pub payload: Option<Seq<u8>>,
    pub children: Seq<Trie>,
}

impl Trie {
    /// The node with no children.
    pub open spec fn leaf(label: Seq<u8>, payload: Option<Seq<u8>>) -> Trie {
        Trie { label, payload, children: Seq::empty() }
    }

    /// Whether some child bears `label`.
    pub open spec fn has_child(self, label: Seq<u8>) -> bool {
        exists|i: int| 0 <= i < self.children.len() && same_label((#[trigger] self.children[i]).label, label)
    }

    /// Whether child `i` is the first that bears `label`.
    pub open spec fn first_match(self, label: Seq<u8>, i: int) -> bool {
        &&& 0 <= i < self.children.len()
        &&& same_label(self.children[i].label, label)
        &&& forall|j: int| 0 <= j < i ==> !same_label((#[trigger] self.children[j]).label, label)
    }

    /// The index of the first child that bears `label`, where there is one.
    pub open spec fn child_index(self, label: Seq<u8>) -> int {
        choose|i: int| self.first_match(label, i)
    }

    /// The node with child `i` replaced.
    pub open spec fn with_child(self, i: int, child: Trie) -> Trie {
        Trie { children: self.children.update(i, child), ..self }
    }

    /// The node with one more child, after the others.
    pub open spec fn with_new_child(self, child: Trie) -> Trie {
        Trie { children: self.children.push(child), ..self }
    }

    /// The node with `data` for its payload.
    pub open spec fn with_payload(self, data: Seq<u8>) -> Trie {
        Trie { payload: Some(data), ..self }
    }

    /// The deepest node reached from here along `path`: at each step the
    /// walk goes down to the child that bears the next label, and it
    /// stops where there is none or the path ends.
    pub open spec fn lookup(self, path: Seq<Seq<u8>>) -> Trie
        decreases path.len(),
    {
        if path.len() == 0 || !self.has_child(path[0]) {
            self
        } else {
            self.children[self.child_index(path[0])].lookup(path.skip(1))
        }
    }

    /// How many labels of `path` the walk of [`Trie::lookup`] matches.
    pub open spec fn depth(self, path: Seq<Seq<u8>>) -> nat
        decreases path.len(),
    {
        if path.len() == 0 || !self.has_child(path[0]) {
            0
        } else {
            1 + self.children[self.child_index(path[0])].depth(path.skip(1))
        }
    }

    /// This tree with `node` in the place of the node that
    /// [`Trie::lookup`] reaches along `path`.
    pub open spec fn graft(self, path: Seq<Seq<u8>>, node: Trie) -> Trie
        decreases path.len(),
    {
        if path.len() == 0 || !self.has_child(path[0]) {
            node
        } else {
            let i = self.child_index(path[0]);
            self.with_child(i, self.children[i].graft(path.skip(1), node))
        }
    }

    /// This tree after `data` is stored for `path`: the walk goes as far
    /// as it can, a new node without payload is made for every label that
    /// is left, and the node for the last label gets `data`.
    pub open spec fn insert(self, path: Seq<Seq<u8>>, data: Seq<u8>) -> Trie
        decreases path.len(),
    {
        if path.len() == 0 {
            self.with_payload(data)
        } else if self.has_child(path[0]) {
            let i = self.child_index(path[0]);
            self.with_child(i, self.children[i].insert(path.skip(1), data))
        } else {
            self.with_new_child(Trie::leaf(path[0], None).insert(path.skip(1), data))
        }
    }

    /// Whether no two children of this node bear the same label.
    pub open spec fn distinct_children(self) -> bool {
        forall|i: int, j: int|
            0 <= i < j < self.children.len() ==> !same_label(
                (#[trigger] self.children[i]).label,
                (#[trigger] self.children[j]).label,
            )
    }

    /// Whether this tree is a cache: in every node the children bear
    /// distinct labels, and no payload is longer than record data can be.
    pub open spec fn wf(self) -> bool
        decreases self,
    {
        &&& self.distinct_children()
        &&& self.payload matches Some(data) ==> data.len() <= MAX_PAYLOAD_LEN
        &&& forall|i: int| 0 <= i < self.children.len() ==> (#[trigger] self.children[i]).wf()
    }

    /// Whether this node answers the name whose labels, from the right,
    /// are `path`: it bears the last of them and holds a payload.
    pub open spec fn answers(self, path: Seq<Seq<u8>>) -> bool {
        &&& path.len() > 0
        &&& same_label(self.label, path.last())
        &&& self.payload is Some
    }
}

/// The first child that bears a label is the only index that
/// [`Trie::first_match`] holds of.
pub proof fn lemma_first_match_unique(t: Trie, label: Seq<u8>, i: int)
    requires
        t.first_match(label, i),
    ensures
        t.has_child(label),
        t.child_index(label) == i,
{
    let k = t.child_index(label);
    assert(t.first_match(label, k));
    assert(same_label(t.children[i].label, label));
    assert(same_label(t.children[k].label, label));
}

/// Where some child bears a label, a first one does.
pub proof fn lemma_child_index(t: Trie, label: Seq<u8>)
    requires
        t.has_child(label),
    ensures
        t.first_match(label, t.child_index(label)),
{
    let some = choose|i: int|
        0 <= i < t.children.len() && same_label((#[trigger] t.children[i]).label, label);
    lemma_first_among(t, label, some);
}

/// Where child `upto` bears a label, some child at or before it is the
/// first to do so.
proof fn lemma_first_among(t: Trie, label: Seq<u8>, upto: int)
    requires
        0 <= upto < t.children.len(),
        same_label(t.children[upto].label, label),
    ensures
        exists|i: int| t.first_match(label, i),
    decreases upto,
{
    if exists|j: int| 0 <= j < upto && same_label((#[trigger] t.children[j]).label, label) {
        let j = choose|j: int| 0 <= j < upto && same_label((#[trigger] t.children[j]).label, label);
        lemma_first_among(t, label, j);
    } else {
        assert(t.first_match(label, upto));
    }
}

/// One more step of the walk: where the first `k` labels of `path` are
/// matched and the node they lead to has a child that bears the next
/// label, the first `k + 1` labels are matched and lead to that child,
/// and to put `node` in the child's place is to put, in the place of the
/// node before it, that node with `node` for that child.
pub proof fn lemma_walk_step(t: Trie, path: Seq<Seq<u8>>, k: int, node: Trie)
    requires
        0 <= k < path.len(),
        t.depth(path.take(k)) == k,
        t.lookup(path.take(k)).has_child(path[k]),
    ensures
        t.depth(path.take(k + 1)) == k + 1,
        t.lookup(path.take(k + 1)) == t.lookup(path.take(k)).children[t.lookup(
            path.take(k),
        ).child_index(path[k])],
        t.graft(path.take(k + 1), node) == t.graft(
            path.take(k),
            t.lookup(path.take(k)).with_child(t.lookup(path.take(k)).child_index(path[k]), node),
        ),
    decreases k,
{
    let longer = path.take(k + 1);
    let shorter = path.take(k);
    assert(longer[0] == path[0]);
    if k == 0 {
        let i = t.child_index(path[0]);
        assert(shorter.len() == 0);
        assert(t.lookup(shorter) == t);
        assert(t.graft(shorter, t.with_child(i, node)) == t.with_child(i, node));
        assert(longer.skip(1).len() == 0);
        assert(t.children[i].depth(longer.skip(1)) == 0);
        assert(t.children[i].lookup(longer.skip(1)) == t.children[i]);
        assert(t.children[i].graft(longer.skip(1), node) == node);
    } else {
        assert(shorter[0] == path[0]);
        assert(t.has_child(path[0]));
        let i = t.child_index(path[0]);
        let below = t.children[i];
        let rest = path.skip(1);
        assert(shorter.skip(1) == rest.take(k - 1));
        assert(longer.skip(1) == rest.take(k));
        assert(rest[k - 1] == path[k]);
        assert(t.depth(shorter) == 1 + below.depth(rest.take(k - 1)));
        assert(t.lookup(shorter) == below.lookup(rest.take(k - 1)));
        lemma_walk_step(below, rest, k - 1, node);
        assert(t.depth(longer) == 1 + below.depth(rest.take(k)));
        assert(t.lookup(longer) == below.lookup(rest.take(k)));
        assert(t.graft(longer, node) == t.with_child(i, below.graft(rest.take(k), node)));
    }
}

/// The end of the walk: where the first `k` labels of `path` are matched
/// and the path ends there, or the node they lead to has no child that
/// bears the next label, the walk along the whole path ends at that node.
pub proof fn lemma_walk_end(t: Trie, path: Seq<Seq<u8>>, k: int, node: Trie)
    requires
        0 <= k <= path.len(),
        t.depth(path.take(k)) == k,
        k == path.len() || !t.lookup(path.take(k)).has_child(path[k]),
    ensures
        t.depth(path) == k,
        t.lookup(path) == t.lookup(path.take(k)),
        t.graft(path, node) == t.graft(path.take(k), node),
    decreases k,
{
    if k == path.len() {
        assert(path.take(k) == path);
    } else if k > 0 {
        let shorter = path.take(k);
        assert(shorter[0] == path[0]);
        let below = t.children[t.child_index(path[0])];
        let rest = path.skip(1);
        assert(shorter.skip(1) == rest.take(k - 1));
        assert(rest[k - 1] == path[k]);
        lemma_walk_end(below, rest, k - 1, node);
    }
}

/// Whether `p` and `q` spell the same name, case aside.
pub open spec fn same_path(p: Seq<Seq<u8>>, q: Seq<Seq<u8>>) -> bool {
    &&& p.len() == q.len()
    &&& forall|i: int| 0 <= i < p.len() ==> same_label(#[trigger] p[i], q[i])
}

/// Storing a name changes no label on the way: the root keeps its own.
pub proof fn lemma_insert_keeps_label(t: Trie, path: Seq<Seq<u8>>, data: Seq<u8>)
    ensures
        t.insert(path, data).label == t.label,
{
}

/// A child that bears a label is found under every spelling of it.
pub proof fn lemma_child_ignores_case(t: Trie, a: Seq<u8>, b: Seq<u8>)
    requires
        same_label(a, b),
    ensures
        t.has_child(a) == t.has_child(b),
        t.has_child(a) ==> t.child_index(a) == t.child_index(b),
{
    if t.has_child(a) {
        lemma_child_index(t, a);
        let i = t.child_index(a);
        assert(same_label(t.children[i].label, b));
        assert(t.first_match(b, i));
        lemma_first_match_unique(t, b, i);
    }
    if t.has_child(b) {
        lemma_child_index(t, b);
        let i = t.child_index(b);
        assert(same_label(t.children[i].label, a));
    }
}

/// The walk does not see the case of letters: two spellings of a name
/// end at the same node, after as many steps.
pub proof fn lemma_lookup_ignores_case(t: Trie, p: Seq<Seq<u8>>, q: Seq<Seq<u8>>)
    requires
        same_path(p, q),
    ensures
        t.lookup(p) == t.lookup(q),
        t.depth(p) == t.depth(q),
    decreases p.len(),
{
    if p.len() > 0 {
        lemma_child_ignores_case(t, p[0], q[0]);
        if t.has_child(p[0]) {
            lemma_child_index(t, p[0]);
            let i = t.child_index(p[0]);
            assert(same_path(p.skip(1), q.skip(1))) by {
                assert forall|k: int| 0 <= k < p.skip(1).len() implies same_label(
                    #[trigger] p.skip(1)[k],
                    q.skip(1)[k],
                ) by {
                    assert(same_label(p[k + 1], q[k + 1]));
                }
            }
            lemma_lookup_ignores_case(t.children[i], p.skip(1), q.skip(1));
        }
    }
}

/// What was stored is found: after `data` is stored for a name, the walk
/// along that name matches all of it and ends at a node that bears the
/// name's last label and holds `data`.
pub proof fn lemma_lookup_inserted(t: Trie, path: Seq<Seq<u8>>, data: Seq<u8>)
    requires
        path.len() > 0,
    ensures
        t.insert(path, data).lookup(path).payload == Some(data),
        t.insert(path, data).lookup(path).answers(path),
        t.insert(path, data).depth(path) == path.len(),
    decreases path.len(),
{
    let rest = path.skip(1);
    let after = t.insert(path, data);
    let at = if t.has_child(path[0]) {
        t.child_index(path[0])
    } else {
        t.children.len() as int
    };
    let below = if t.has_child(path[0]) {
        t.children[at]
    } else {
        Trie::leaf(path[0], None)
    };
    if t.has_child(path[0]) {
        lemma_child_index(t, path[0]);
    }
    lemma_insert_keeps_label(below, rest, data);
    assert(after.children[at] == below.insert(rest, data));
    assert(after.first_match(path[0], at)) by {
        assert forall|j: int| 0 <= j < at implies !same_label(
            (#[trigger] after.children[j]).label,
            path[0],
        ) by {
            assert(after.children[j] == t.children[j]);
        }
    }
    lemma_first_match_unique(after, path[0], at);
    if rest.len() > 0 {
        lemma_lookup_inserted(below, rest, data);
        assert(rest.last() == path.last());
    } else {
        assert(path.last() == path[0]);
        assert(below.insert(rest, data).depth(rest) == 0);
    }
}

/// Names are found under every spelling: after `data` is stored for a
/// name, the walk along another spelling of it ends at the same node as
/// the walk along the name itself, and that node answers both.
pub proof fn lemma_lookup_inserted_ignores_case(
    t: Trie,
    stored: Seq<Seq<u8>>,
    asked: Seq<Seq<u8>>,
    data: Seq<u8>,
)
    requires
        stored.len() > 0,
        same_path(stored, asked),
    ensures
        t.insert(stored, data).lookup(asked) == t.insert(stored, data).lookup(stored),
        t.insert(stored, data).lookup(asked).payload == Some(data),
        t.insert(stored, data).lookup(asked).answers(asked),
{
    lemma_lookup_inserted(t, stored, data);
    lemma_lookup_ignores_case(t.insert(stored, data), stored, asked);
    assert(same_label(stored.last(), asked.last()));
}

/// Storing keeps a cache a cache: where the children of every node bore
/// distinct labels and `data` is no longer than record data can be, the
/// same holds after it is stored.
pub proof fn lemma_insert_keeps_wf(t: Trie, path: Seq<Seq<u8>>, data: Seq<u8>)
    requires
        t.wf(),
        data.len() <= MAX_PAYLOAD_LEN,
    ensures
        t.insert(path, data).wf(),
    decreases path.len(),
{
    let after = t.insert(path, data);
    if path.len() == 0 {
        assert(after.children == t.children);
    } else {
        let rest = path.skip(1);
        if t.has_child(path[0]) {
            lemma_child_index(t, path[0]);
            let i = t.child_index(path[0]);
            lemma_insert_keeps_wf(t.children[i], rest, data);
            lemma_insert_keeps_label(t.children[i], rest, data);
            assert forall|a: int, b: int| 0 <= a < b < after.children.len() implies !same_label(
                (#[trigger] after.children[a]).label,
                (#[trigger] after.children[b]).label,
            ) by {
                assert(after.children[a].label == t.children[a].label);
                assert(after.children[b].label == t.children[b].label);
            }
            assert forall|k: int| 0 <= k < after.children.len() implies (
            #[trigger] after.children[k]).wf() by {
                if k != i {
                    assert(after.children[k] == t.children[k]);
                }
            }
        } else {
            let fresh = Trie::leaf(path[0], None);
            assert(fresh.wf());
            lemma_insert_keeps_wf(fresh, rest, data);
            lemma_insert_keeps_label(fresh, rest, data);
            assert forall|a: int, b: int| 0 <= a < b < after.children.len() implies !same_label(
                (#[trigger] after.children[a]).label,
                (#[trigger] after.children[b]).label,
            ) by {
                assert(after.children[a] == t.children[a]);
                if b < t.children.len() {
                    assert(after.children[b] == t.children[b]);
                } else {
                    assert(after.children[b].label == path[0]);
                }
            }
            assert forall|k: int| 0 <= k < after.children.len() implies (
            #[trigger] after.children[k]).wf() by {
                if k < t.children.len() {
                    assert(after.children[k] == t.children[k]);
                }
            }
        }
    }
}

/// A new child keeps a cache a cache where it is one itself and bears a
/// label that no child bore.
pub proof fn lemma_new_child_keeps_wf(t: Trie, child: Trie)
    requires
        t.wf(),
        child.wf(),
        !t.has_child(child.label),
    ensures
        t.with_new_child(child).wf(),
{
    let after = t.with_new_child(child);
    assert forall|a: int, b: int| 0 <= a < b < after.children.len() implies !same_label(
        (#[trigger] after.children[a]).label,
        (#[trigger] after.children[b]).label,
    ) by {
        assert(after.children[a] == t.children[a]);
        if b < t.children.len() {
            assert(after.children[b] == t.children[b]);
        }
    }
    assert forall|k: int| 0 <= k < after.children.len() implies (#[trigger] after.children[k]).wf() by {
        if k < t.children.len() {
            assert(after.children[k] == t.children[k]);
        }
    }
}

/// A child may be changed for a cache that bears the same label, case
/// aside, and the node stays a cache.
pub proof fn lemma_with_child_keeps_wf(t: Trie, i: int, child: Trie)
    requires
        t.wf(),
        0 <= i < t.children.len(),
        child.wf(),
        same_label(child.label, t.children[i].label),
    ensures
        t.with_child(i, child).wf(),
{
    let after = t.with_child(i, child);
    assert forall|a: int, b: int| 0 <= a < b < after.children.len() implies !same_label(
        (#[trigger] after.children[a]).label,
        (#[trigger] after.children[b]).label,
    ) by {
        assert(same_label(after.children[a].label, t.children[a].label));
        assert(same_label(after.children[b].label, t.children[b].label));
    }
    assert forall|k: int| 0 <= k < after.children.len() implies (#[trigger] after.children[k]).wf() by {
        if k != i {
            assert(after.children[k] == t.children[k]);
        }
    }
}

/// The node that the walk reaches may be changed for a cache that bears
/// the same label, case aside, and the tree stays a cache.
pub proof fn lemma_graft_keeps_wf(t: Trie, path: Seq<Seq<u8>>, node: Trie)
    requires
        t.wf(),
        node.wf(),
        same_label(node.label, t.lookup(path).label),
    ensures
        t.graft(path, node).wf(),
        same_label(t.graft(path, node).label, t.label),
    decreases path.len(),
{
    if path.len() > 0 && t.has_child(path[0]) {
        lemma_child_index(t, path[0]);
        let i = t.child_index(path[0]);
        lemma_graft_keeps_wf(t.children[i], path.skip(1), node);
        lemma_with_child_keeps_wf(t, i, t.children[i].graft(path.skip(1), node));
    }
}

/// Every node that the walk can reach in a cache is a cache.
pub proof fn lemma_lookup_wf(t: Trie, path: Seq<Seq<u8>>)
    requires
        t.wf(),
    ensures
        t.lookup(path).wf(),
    decreases path.len(),
{
    if path.len() > 0 && t.has_child(path[0]) {
        lemma_child_index(t, path[0]);
        lemma_lookup_wf(t.children[t.child_index(path[0])], path.skip(1));
    }
}

/// A walk that changes nothing leaves the tree as it was: the tree with
/// the node that the walk reaches put in its own place is the tree.
pub proof fn lemma_graft_found(t: Trie, path: Seq<Seq<u8>>)
    ensures
        t.graft(path, t.lookup(path)) == t,
    decreases path.len(),
{
    if path.len() > 0 && t.has_child(path[0]) {
        lemma_child_index(t, path[0]);
        let i = t.child_index(path[0]);
        lemma_graft_found(t.children[i], path.skip(1));
        assert(t.children.update(i, t.children[i]) =~= t.children);
    }
}

} // verus!

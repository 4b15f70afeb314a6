//! The domain cache: a trie of labels.
//!
//! A name is stored along the path of its labels taken from the right, so
//! that names with a common suffix share the nodes near the root. A node
//! may hold the record data that was learned for the name its path spells.

use crate::label::{label_ref_views, same_label, QueryToken};
use crate::trie::{
    lemma_first_match_unique, lemma_graft_keeps_wf, lemma_insert_keeps_wf,
    lemma_new_child_keeps_wf, lemma_walk_end, lemma_walk_step, lemma_with_child_keeps_wf, Trie,
    MAX_PAYLOAD_LEN,
};
use vstd::prelude::*;

verus! {

/// The view of an optional payload.
pub open spec fn payload_view(data: Option<Vec<u8>>) -> Option<Seq<u8>> {
    match data {
        Some(bytes) => Some(bytes@),
        None => None,
    }
}

/// A node of the cache.
#[derive(Debug)]
pub struct CacheNode {
    label: QueryToken,
    data: Option<Vec<u8>>,
    children: Vec<CacheNode>,
}

impl View for CacheNode {
    type V = Trie;

    closed spec fn view(&self) -> Trie {
        self.model()
    }
}

impl CacheNode {
    /// The tree that the node stands for.
    closed spec fn model(&self) -> Trie
        decreases self,
    {
        Trie {
            label: self.label@,
            payload: payload_view(self.data),
            children: Seq::new(
                self.children@.len(),
                |i: int|
                    if 0 <= i < self.children@.len() {
                        self.children@[i].model()
                    } else {
                        Trie::leaf(Seq::empty(), None)
                    },
            ),
        }
    }
}

/// What storing does at one node, by the first label of the path: it
/// stores the rest of the path below the child that bears the label, or
/// below a new child where there is none.
proof fn lemma_insert_step(node: Trie, path: Seq<Seq<u8>>, data: Seq<u8>)
    requires
        path.len() > 0,
    ensures
        node.has_child(path[0]) ==> node.insert(path, data) == node.with_child(
            node.child_index(path[0]),
            node.children[node.child_index(path[0])].insert(path.skip(1), data),
        ),
        !node.has_child(path[0]) ==> node.insert(path, data) == node.with_new_child(
            Trie::leaf(path[0], None).insert(path.skip(1), data),
        ),
{
}

/// [`lemma_with_child_keeps_wf`], for a child of which nothing is known
/// yet.
proof fn lemma_child_wf(t: Trie, i: int, child: Trie)
    requires
        0 <= i < t.children.len(),
    ensures
        t.wf() && child.wf() && same_label(child.label, t.children[i].label) ==> t.with_child(
            i,
            child,
        ).wf(),
{
    if t.wf() && child.wf() && same_label(child.label, t.children[i].label) {
        lemma_with_child_keeps_wf(t, i, child);
    }
}

/// [`lemma_graft_keeps_wf`], for a node of which nothing is known yet.
proof fn lemma_graft_wf(t: Trie, path: Seq<Seq<u8>>, node: Trie)
    ensures
        t.wf() && node.wf() && same_label(node.label, t.lookup(path).label) ==> t.graft(
            path,
            node,
        ).wf(),
{
    if t.wf() && node.wf() && same_label(node.label, t.lookup(path).label) {
        lemma_graft_keeps_wf(t, path, node);
    }
}

/// [`lemma_new_child_keeps_wf`], for a child of which nothing is known
/// yet.
proof fn lemma_new_child_wf(t: Trie, child: Trie)
    ensures
        t.wf() && child.wf() && !t.has_child(child.label) ==> t.with_new_child(child).wf(),
{
    if t.wf() && child.wf() && !t.has_child(child.label) {
        lemma_new_child_keeps_wf(t, child);
    }
}

impl CacheNode {
    /// The view of a node, field by field.
    proof fn lemma_view(self)
        ensures
            self@.label == self.label@,
            self@.payload == payload_view(self.data),
            self@.children.len() == self.children@.len(),
            forall|i: int|
                0 <= i < self.children@.len() ==> (#[trigger] self@.children[i])
                    == self.children@[i]@,
            forall|i: int|
                0 <= i < self.children@.len() ==> (#[trigger] self@.children[i]).label
                    == self.children@[i].label@,
    {
        assert forall|i: int| 0 <= i < self.children@.len() implies (#[trigger] self@.children[i]).label
            == self.children@[i].label@ by {
            assert(self.children@[i]@.label == self.children@[i].label@);
        }
    }

    /// The view of a node that differs from another in one child.
    proof fn lemma_view_with_child(self, after: CacheNode, i: int, child: CacheNode)
        requires
            0 <= i < self.children@.len(),
            after.label == self.label,
            after.data == self.data,
            after.children@ == self.children@.update(i, child),
        ensures
            after@ == self@.with_child(i, child@),
    {
        self.lemma_view();
        after.lemma_view();
        assert(after@.children =~= self@.children.update(i, child@));
    }

    /// The view of a node that has one child more than another.
    proof fn lemma_view_with_new_child(self, after: CacheNode, child: CacheNode)
        requires
            after.label == self.label,
            after.data == self.data,
            after.children@ == self.children@.push(child),
        ensures
            after@ == self@.with_new_child(child@),
    {
        self.lemma_view();
        after.lemma_view();
        assert(after@.children =~= self@.children.push(child@));
    }

    /// A node without children.
    pub fn new(label: QueryToken, data: Option<Vec<u8>>) -> (node: CacheNode)
        ensures
            node@ == Trie::leaf(label@, payload_view(data)),
            (data matches Some(bytes) ==> bytes.len() <= MAX_PAYLOAD_LEN) ==> node@.wf(),
    {
        let node = CacheNode { label, data, children: Vec::new() };
        proof {
            node.lemma_view();
            assert(node@.children =~= Seq::empty());
        }
        node
    }

    /// The label that the node bears.
    pub fn label(&self) -> (label: &QueryToken)
        ensures
            label@ == self@.label,
    {
        &self.label
    }

    /// The record data that the node holds, if any.
    pub fn payload(&self) -> (data: &Option<Vec<u8>>)
        ensures
            payload_view(*data) == self@.payload,
    {
        &self.data
    }

    /// How many children the node has.
    pub fn child_count(&self) -> (n: usize)
        ensures
            n == self@.children.len(),
    {
        self.children.len()
    }

    /// Whether some child of the node bears `needle`.
    pub fn has_label(&self, needle: &QueryToken) -> (found: bool)
        ensures
            found == self@.has_child(needle@),
    {
        proof {
            self.lemma_view();
        }
        let mut i: usize = 0;
        while i < self.children.len()
            invariant
                i <= self.children.len(),
                self@.children.len() == self.children@.len(),
                forall|j: int|
                    0 <= j < self.children@.len() ==> (#[trigger] self@.children[j]).label
                        == self.children@[j].label@,
                forall|j: int| 0 <= j < i ==> !same_label((#[trigger] self@.children[j]).label, needle@),
            decreases self.children.len() - i,
        {
            if self.children[i].label == *needle {
                assert(same_label(self@.children[i as int].label, needle@));
                return true;
            }
            i += 1;
        }
        false
    }

    /// The first child that bears `needle`, if there is one.
    pub fn search_by_label(&mut self, needle: &QueryToken) -> (found: Option<&mut CacheNode>)
        ensures
            match found {
                Some(child) => {
                    &&& old(self)@.has_child(needle@)
                    &&& child@ == old(self)@.children[old(self)@.child_index(needle@)]
                    &&& final(self)@ == old(self)@.with_child(
                        old(self)@.child_index(needle@),
                        final(child)@,
                    )
                },
                None => !old(self)@.has_child(needle@) && final(self)@ == old(self)@,
            },
            found matches Some(child) ==> (old(self)@.wf() && final(child)@.wf() && same_label(
                final(child)@.label,
                child@.label,
            ) ==> final(self)@.wf()),
    {
        let ghost after = *final(self);
        proof {
            self.lemma_view();
        }
        let mut i: usize = 0;
        while i < self.children.len()
            invariant
                *self == *old(self),
                after == *final(self),
                i <= self.children.len(),
                self@.children.len() == self.children@.len(),
                forall|j: int|
                    0 <= j < self.children@.len() ==> (#[trigger] self@.children[j]).label
                        == self.children@[j].label@,
                forall|j: int| 0 <= j < i ==> !same_label((#[trigger] self@.children[j]).label, needle@),
            decreases self.children.len() - i,
        {
            if self.children[i].label == *needle {
                proof {
                    lemma_first_match_unique(self@, needle@, i as int);
                }
                let child = &mut self.children[i];
                proof {
                    old(self).lemma_view_with_child(after, i as int, *final(child));
                    lemma_child_wf(old(self)@, i as int, final(child)@);
                }
                return Some(child);
            }
            i += 1;
        }
        None
    }

    /// Adds a child that bears `name` and holds `data`, after the
    /// children there are, and hands it out.
    pub fn insert(&mut self, name: &QueryToken, data: Option<Vec<u8>>) -> (child: &mut CacheNode)
        ensures
            child@ == Trie::leaf(name@, payload_view(data)),
            final(self)@ == old(self)@.with_new_child(final(child)@),
            old(self)@.wf() && final(child)@.wf() && !old(self)@.has_child(final(child)@.label)
                ==> final(self)@.wf(),
    {
        let ghost after = *final(self);
        let node = CacheNode::new(name.clone(), data);
        self.children.push(node);
        let last = self.children.len() - 1;
        let child = &mut self.children[last];
        proof {
            assert(after.children@ =~= old(self).children@.push(*final(child)));
            old(self).lemma_view_with_new_child(after, *final(child));
            lemma_new_child_wf(old(self)@, final(child)@);
        }
        child
    }

    /// Sets the payload of the node to `data`.
    pub fn update(&mut self, data: &Vec<u8>)
        ensures
            final(self)@ == old(self)@.with_payload(data@),
            old(self)@.wf() && data.len() <= MAX_PAYLOAD_LEN ==> final(self)@.wf(),
    {
        self.data = Some(data.clone());
    }

    /// Walks down from this node along `needle` as far as the labels are
    /// known, and hands out the node that the walk ends at: this node
    /// itself where not even the first label is known.
    pub fn search_by_label_stream(&mut self, needle: &Vec<&QueryToken>) -> (deepest: &mut CacheNode)
        ensures
            deepest@ == old(self)@.lookup(label_ref_views(needle@)),
            final(self)@ == old(self)@.graft(label_ref_views(needle@), final(deepest)@),
            old(self)@.wf() && final(deepest)@.wf() && same_label(
                final(deepest)@.label,
                deepest@.label,
            ) ==> final(self)@.wf(),
    {
        let ghost path = label_ref_views(needle@);
        let ghost start = self@;
        let ghost goal = final(self)@;
        let mut current = self;
        let mut index: usize = 0;
        while index < needle.len()
            invariant
                index <= needle.len(),
                path == label_ref_views(needle@),
                start == old(self)@,
                goal == final(self)@,
                start.depth(path.take(index as int)) == index,
                current@ == start.lookup(path.take(index as int)),
                goal == start.graft(path.take(index as int), final(current)@),
            decreases needle.len() - index,
        {
            let known = current.has_label(needle[index]);
            if !known {
                proof {
                    lemma_walk_end(start, path, index as int, final(current)@);
                    lemma_graft_wf(start, path, final(current)@);
                }
                return current;
            }
            let child = current.search_by_label(needle[index]).unwrap();
            proof {
                lemma_walk_step(start, path, index as int, final(child)@);
            }
            current = child;
            index += 1;
        }
        proof {
            lemma_walk_end(start, path, index as int, final(current)@);
            lemma_graft_wf(start, path, final(current)@);
        }
        current
    }

    /// Stores `data` for the name whose labels, from the right, are
    /// `name`: walks down as far as the labels are known, makes a node
    /// without payload for each label that is left, and sets the payload
    /// of the node for the last label, whatever it held.
    pub fn insert_stream(&mut self, name: &Vec<&QueryToken>, data: &Vec<u8>)
        ensures
            final(self)@ == old(self)@.insert(label_ref_views(name@), data@),
            old(self)@.wf() && data.len() <= MAX_PAYLOAD_LEN ==> final(self)@.wf(),
    {
        let ghost path = label_ref_views(name@);
        let ghost start = self@;
        let ghost goal = final(self)@;
        proof {
            assert(path.skip(0) == path);
            if start.wf() && data.len() <= MAX_PAYLOAD_LEN {
                lemma_insert_keeps_wf(start, path, data@);
            }
        }
        let mut current = self;
        let mut index: usize = 0;
        loop
            invariant
                index <= name.len(),
                path == label_ref_views(name@),
                final(current)@ == current@.insert(path.skip(index as int), data@) ==> goal
                    == start.insert(path, data@),
            ensures
                index == name.len() || !current@.has_child(path[index as int]),
            decreases name.len() - index,
        {
            if index == name.len() {
                break;
            }
            let known = current.has_label(name[index]);
            if !known {
                break;
            }
            let ghost node = current@;
            let child = current.search_by_label(name[index]).unwrap();
            proof {
                lemma_insert_step(node, path.skip(index as int), data@);
                assert(path.skip(index as int).skip(1) == path.skip(index + 1));
            }
            current = child;
            index += 1;
        }
        while index < name.len()
            invariant
                index <= name.len(),
                path == label_ref_views(name@),
                index < name.len() ==> !current@.has_child(path[index as int]),
                final(current)@ == current@.insert(path.skip(index as int), data@) ==> goal
                    == start.insert(path, data@),
            decreases name.len() - index,
        {
            let ghost node = current@;
            let child = current.insert(name[index], None);
            proof {
                lemma_insert_step(node, path.skip(index as int), data@);
                assert(path.skip(index as int).skip(1) == path.skip(index + 1));
            }
            current = child;
            index += 1;
        }
        current.update(data);
    }
}

} // verus!

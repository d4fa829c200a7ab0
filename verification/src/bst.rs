//! A plain binary search tree of `i32` values.
use vstd::prelude::*;

verus! {

/// A node in a binary search tree of integers.
pub struct Node {
    value: i32,
    l: Option<Box<Node>>,
    r: Option<Box<Node>>,
}

impl Node {
    /// The values held by a maybe-subtree.
    pub open spec fn set_of(t: Option<Box<Node>>) -> Set<i32>
        decreases t,
    {
        match t {
            None => Set::empty(),
            Some(n) => n.as_set(),
        }
    }

    pub closed spec fn as_set(self) -> Set<i32>
        decreases self,
    {
        Self::set_of(self.l).union(Self::set_of(self.r)).insert(self.value)
    }

    /// Smaller values on the left, larger on the right, at every node.
    pub closed spec fn wf(self) -> bool
        decreases self,
    {
        &&& forall|v| #[trigger] Self::set_of(self.l).contains(v) ==> v < self.value
        &&& forall|v| #[trigger] Self::set_of(self.r).contains(v) ==> v > self.value
        &&& match self.l {
            Some(l) => l.wf(),
            None => true,
        }
        &&& match self.r {
            Some(r) => r.wf(),
            None => true,
        }
    }

    pub open spec fn wf_opt(t: Option<Box<Node>>) -> bool {
        match t {
            None => true,
            Some(n) => n.wf(),
        }
    }

    pub closed spec fn size(self) -> nat
        decreases self,
    {
        1 + match self.l {
            Some(l) => l.size(),
            None => 0,
        } + match self.r {
            Some(r) => r.size(),
            None => 0,
        }
    }

    pub open spec fn size_of(t: Option<Box<Node>>) -> nat {
        match t {
            None => 0,
            Some(n) => n.size(),
        }
    }

    /// A well-formed subtree holds as many values as it has nodes.
    pub proof fn lemma_size(t: Option<Box<Node>>)
        requires
            Self::wf_opt(t),
        ensures
            Self::set_of(t).finite(),
            Self::set_of(t).len() == Self::size_of(t),
        decreases t,
    {
        if let Some(n) = t {
            Self::lemma_size(n.l);
            Self::lemma_size(n.r);
            let sl = Self::set_of(n.l);
            let sr = Self::set_of(n.r);
            assert(sl.disjoint(sr)) by {
                assert forall|v| sl.contains(v) implies !sr.contains(v) by {
                    assert(v < n.value);
                }
            }
            vstd::set_lib::lemma_set_disjoint_lens(sl, sr);
            assert(n.as_set() =~= (sl + sr).insert(n.value));
        }
    }

    pub fn new(value: i32) -> (n: Self)
        ensures
            n.wf(),
            n.as_set() == Set::<i32>::empty().insert(value),
            n.size() == 1,
    {
        let n = Node { value, l: None, r: None };
        proof {
            assert(n.as_set() =~= Set::<i32>::empty().insert(value));
        }
        n
    }

    /// The number of nodes in this subtree, this one included.
    pub fn len(&self) -> (r: usize)
        requires
            self.size() <= usize::MAX,
        ensures
            r == self.size(),
        decreases self,
    {
        let a: usize = match &self.l {
            Some(l) => l.len(),
            None => 0,
        };
        let b: usize = match &self.r {
            Some(r) => r.len(),
            None => 0,
        };
        a + b + 1
    }

    pub fn contains(&self, value: i32) -> (r: bool)
        requires
            self.wf(),
        ensures
            r == self.as_set().contains(value),
        decreases self,
    {
        if value < self.value {
            assert(!Self::set_of(self.r).contains(value));
            match &self.l {
                Some(l) => l.contains(value),
                None => false,
            }
        } else if value > self.value {
            assert(!Self::set_of(self.l).contains(value));
            match &self.r {
                Some(r) => r.contains(value),
                None => false,
            }
        } else {
            true
        }
    }

    pub fn insert(&mut self, value: i32)
        requires
            old(self).wf(),
        ensures
            final(self).wf(),
            final(self).as_set() == old(self).as_set().insert(value),
            final(self).size() <= old(self).size() + 1,
        decreases old(self).size(),
    {
        if value < self.value {
            if self.l.is_some() {
                let l = self.l.as_mut().unwrap();
                l.insert(value);
            } else {
                self.l = Some(Box::new(Node::new(value)));
            }
            proof {
                assert(Self::set_of(self.l) =~= Self::set_of(old(self).l).insert(value));
                assert forall|v| #[trigger] Self::set_of(self.l).contains(v) implies v < self.value by {
                    if v != value {
                        assert(Self::set_of(old(self).l).contains(v));
                    }
                }
                assert(self.as_set() =~= old(self).as_set().insert(value));
            }
        } else if value > self.value {
            if self.r.is_some() {
                let r = self.r.as_mut().unwrap();
                r.insert(value);
            } else {
                self.r = Some(Box::new(Node::new(value)));
            }
            proof {
                assert(Self::set_of(self.r) =~= Self::set_of(old(self).r).insert(value));
                assert forall|v| #[trigger] Self::set_of(self.r).contains(v) implies v > self.value by {
                    if v != value {
                        assert(Self::set_of(old(self).r).contains(v));
                    }
                }
                assert(self.as_set() =~= old(self).as_set().insert(value));
            }
        } else {
            proof {
                assert(old(self).as_set() =~= old(self).as_set().insert(value));
            }
        }
    }

    /// Return this subtree with its minimum value removed, and that value.
    pub fn take_min(node: Box<Node>) -> (res: (Option<Box<Node>>, i32))
        requires
            node.wf(),
        ensures
            node.as_set().contains(res.1),
            forall|v| #[trigger] node.as_set().contains(v) ==> res.1 <= v,
            Self::wf_opt(res.0),
            Self::set_of(res.0) == node.as_set().remove(res.1),
            Self::size_of(res.0) + 1 == node.size(),
        decreases node,
    {
        let ghost orig = *node;
        let mut node = node;
        if node.l.is_none() {
            let Node { value, r, .. } = *node;
            proof {
                assert(Self::set_of(r) =~= orig.as_set().remove(value));
            }
            (r, value)
        } else {
            let l = node.l.take().unwrap();
            proof {
                assert(Self::set_of(Some(l)).contains(l.value));
            }
            let (new_l, min) = Self::take_min(l);
            node.l = new_l;
            proof {
                assert(!Self::set_of(node.r).contains(min));
                assert(node.as_set() =~= orig.as_set().remove(min));
                assert forall|v| #[trigger] orig.as_set().contains(v) implies min <= v by {
                    if Self::set_of(orig.r).contains(v) {
                        assert(min < orig.value);
                    }
                }
            }
            (Some(node), min)
        }
    }

    /// Remove a value from a maybe-subtree, if present.
    pub fn remove(node: &mut Option<Box<Node>>, value: i32)
        requires
            Self::wf_opt(*old(node)),
        ensures
            Self::wf_opt(*final(node)),
            Self::set_of(*final(node)) == Self::set_of(*old(node)).remove(value),
            Self::size_of(*final(node)) <= Self::size_of(*old(node)),
        decreases *old(node),
    {
        if node.is_none() {
            proof {
                assert(Self::set_of(*node) =~= Self::set_of(*node).remove(value));
            }
            return;
        }
        let mut n = node.take().unwrap();
        let ghost orig = *n;
        if value < n.value {
            Self::remove(&mut n.l, value);
            proof {
                assert(!Self::set_of(n.r).contains(value));
                assert(n.as_set() =~= orig.as_set().remove(value));
            }
            *node = Some(n);
        } else if value > n.value {
            Self::remove(&mut n.r, value);
            proof {
                assert(!Self::set_of(n.l).contains(value));
                assert(n.as_set() =~= orig.as_set().remove(value));
            }
            *node = Some(n);
        } else {
            proof {
                assert(!Self::set_of(n.l).contains(value));
                assert(!Self::set_of(n.r).contains(value));
            }
            let l = n.l.take();
            let r = n.r.take();
            if l.is_none() {
                proof {
                    assert(Self::set_of(r) =~= orig.as_set().remove(value));
                }
                *node = r;
            } else if r.is_none() {
                proof {
                    assert(Self::set_of(l) =~= orig.as_set().remove(value));
                }
                *node = l;
            } else {
                let r = r.unwrap();
                proof {
                    assert(Self::set_of(Some(r)).contains(r.value));
                }
                let (new_r, min_r) = Self::take_min(r);
                let new_node = Node { value: min_r, l, r: new_r };
                proof {
                    assert forall|v| #[trigger] Self::set_of(new_node.l).contains(v) implies v < new_node.value by {
                        assert(v < orig.value);
                        assert(Self::set_of(orig.r).contains(min_r));
                    }
                    assert(new_node.as_set() =~= orig.as_set().remove(value));
                }
                *node = Some(Box::new(new_node));
            }
        }
    }
}

/// A binary search tree of integers.
pub struct Tree {
    root: Option<Box<Node>>,
}

impl View for Tree {
    type V = Set<i32>;

    closed spec fn view(&self) -> Set<i32> {
        Node::set_of(self.root)
    }
}

impl Tree {
    pub closed spec fn wf(&self) -> bool {
        Node::wf_opt(self.root)
    }

    pub proof fn lemma_finite(&self)
        requires
            self.wf(),
        ensures
            self@.finite(),
    {
        Node::lemma_size(self.root);
    }

    pub fn new() -> (t: Self)
        ensures
            t.wf(),
            t@ == Set::<i32>::empty(),
    {
        let t = Tree { root: None };
        proof {
            assert(t@ =~= Set::<i32>::empty());
        }
        t
    }

    /// The number of values in the tree.
    pub fn len(&self) -> (r: usize)
        requires
            self.wf(),
            self@.len() <= usize::MAX,
        ensures
            r == self@.len(),
    {
        proof {
            Node::lemma_size(self.root);
        }
        match &self.root {
            Some(root) => root.len(),
            None => 0,
        }
    }

    pub fn contains(&self, value: i32) -> (r: bool)
        requires
            self.wf(),
        ensures
            r == self@.contains(value),
    {
        match &self.root {
            Some(root) => root.contains(value),
            None => false,
        }
    }

    pub fn insert(&mut self, value: i32)
        requires
            old(self).wf(),
        ensures
            final(self).wf(),
            final(self)@ == old(self)@.insert(value),
    {
        if self.root.is_some() {
            let root = self.root.as_mut().unwrap();
            root.insert(value);
        } else {
            self.root = Some(Box::new(Node::new(value)));
            proof {
                assert(self@ =~= old(self)@.insert(value));
            }
        }
    }

    pub fn remove(&mut self, value: i32)
        requires
            old(self).wf(),
        ensures
            final(self).wf(),
            final(self)@ == old(self)@.remove(value),
    {
        Node::remove(&mut self.root, value)
    }

    /// Give up the tree, returning its root node.
    pub fn into_root(self) -> (r: Option<Box<Node>>)
        requires
            self.wf(),
        ensures
            Node::wf_opt(r),
            Node::set_of(r) == self@,
    {
        self.root
    }
}

/// A membership test gives back the last write: once `insert(value)` has
/// run, the tree contains `value`; once `remove(value)` has run, it does
/// not; either way every other value keeps its membership.
pub proof fn law_contains_after_write(t: &Tree, value: i32, other: i32)
    requires
        t.wf(),
    ensures
        t@.insert(value).contains(value),
        !t@.remove(value).contains(value),
        other != value ==> {
            &&& t@.insert(value).contains(other) == t@.contains(other)
            &&& t@.remove(value).contains(other) == t@.contains(other)
        },
{
}

} // verus!

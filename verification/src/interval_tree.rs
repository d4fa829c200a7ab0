//! An insert-only interval tree built from the nodes of
//! [`crate::cit::CenteredIntervalTree`]. Unlike that tree it accepts empty
//! and reversed intervals; such an interval is kept at a node of its own and
//! is never reported by a query.
use vstd::prelude::*;
use std::ops::Range;
use crate::cit::{answers, center_of, law_answers_exact, lemma_insert_wf, lemma_shape_of, pairs, shape_of, Node, Shape};

verus! {

pub struct IntervalTree {
    root: Option<Box<Node>>,
}

impl IntervalTree {
    /// The functional model of this tree.
    pub closed spec fn shape(&self) -> Shape {
        shape_of(self.root)
    }

    pub open spec fn wf(&self) -> bool {
        self.shape().wf()
    }

    pub fn new() -> (t: Self)
        ensures
            t.wf(),
            t.shape() == Shape::Leaf,
    {
        proof {
            lemma_shape_of(None);
        }
        IntervalTree { root: None }
    }

    /// The number of intervals, counted node by node.
    pub fn len(&self) -> (n: usize)
        requires
            self.shape().len() <= usize::MAX,
        ensures
            n == self.shape().len(),
    {
        proof {
            lemma_shape_of(self.root);
        }
        match &self.root {
            Some(root) => root.len(),
            None => 0,
        }
    }

    /// Insert an interval (see [`Shape::insert`]).
    pub fn insert(&mut self, interval: Range<i32>)
        requires
            old(self).wf(),
        ensures
            final(self).wf(),
            final(self).shape() == old(self).shape().insert(interval.start, interval.end),
    {
        proof {
            lemma_insert_wf(self.shape(), interval.start, interval.end);
        }
        Node::insert(&mut self.root, interval)
    }

    /// The stored intervals that hold `point`, in the order of [`answers`];
    /// each comes once unless the tree holds an interval whose midpoint
    /// rounds to its end (such an interval can be filed at two nodes).
    pub fn including(&self, point: i32) -> (out: Vec<Range<i32>>)
        requires
            self.wf(),
        ensures
            answers(self.shape(), point, pairs(out@)),
            forall|v: (i32, i32)| #[trigger] pairs(out@).contains(v) <==> (self.shape().stored().contains(v) && v.0 <= point
                && point < v.1),
            (forall|w: (i32, i32)| #[trigger] self.shape().stored().contains(w) ==> center_of(w.0, w.1) < w.1)
                ==> pairs(out@).no_duplicates(),
    {
        let out = self.query(point);
        proof {
            assert forall|v: (i32, i32)| #[trigger] pairs(out@).contains(v) <==> (self.shape().stored().contains(v)
                && v.0 <= point && point < v.1) by {
                law_answers_exact(self.shape(), point, pairs(out@), v);
            }
            law_answers_exact(self.shape(), point, pairs(out@), (0, 0));
        }
        out
    }

    /// The answer to a query for `point`.
    fn query(&self, point: i32) -> (out: Vec<Range<i32>>)
        requires
            self.wf(),
        ensures
            answers(self.shape(), point, pairs(out@)),
    {
        proof {
            lemma_shape_of(self.root);
        }
        match &self.root {
            Some(root) => root.containing(point),
            None => Vec::new(),
        }
    }
}

} // verus!

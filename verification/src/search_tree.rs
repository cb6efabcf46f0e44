//! The tree of a search: for each path of candidate indexes that was
//! tried, the scores of the playouts through it, added up, and the number of
//! times it was explored.

use crate::scoring::indexes_view;
use vstd::prelude::*;

verus! {

/// What is known of a place in the tree: the scores of the playouts through
/// it, added up, and the number of times it was explored.
pub struct NodeStatistics {
    pub score: int,
    pub times_explored: int,
}

/// What a node holds: its candidate index, the scores that reached it,
/// added up, and the number of times it was explored.
#[derive(Clone, Copy, Debug, PartialEq, Eq, Structural)]
pub struct NodeData {
    pub index: usize,
    pub score: u128,
    pub times_explored: usize,
}

/// A node of the tree, with the nodes below it.
pub struct ScoredNode {
    children: Vec<ScoredNode>,
    data: NodeData,
}

/// The place, at or after `from`, of the first child with the candidate
/// index `index`.
pub closed spec fn child_place(children: Seq<ScoredNode>, index: int, from: int) -> Option<int>
    decreases children.len() - from,
{
    if from < 0 || from >= children.len() {
        None
    } else if children[from].data.index == index {
        Some(from)
    } else {
        child_place(children, index, from + 1)
    }
}

/// The statistics of a node that was not reached yet.
pub open spec fn no_statistics() -> NodeStatistics {
    NodeStatistics { score: 0, times_explored: 0 }
}

/// The statistics after a playout with this score, and this many
/// explorations; the numbers stop at the largest that their types hold.
pub open spec fn reached(s: NodeStatistics, score: int, times: int) -> NodeStatistics {
    NodeStatistics {
        score: if s.score + score > u128::MAX {
            u128::MAX as int
        } else {
            s.score + score
        },
        times_explored: if s.times_explored + times > usize::MAX {
            usize::MAX as int
        } else {
            s.times_explored + times
        },
    }
}

/// `path` begins with `start`, which is not empty.
pub open spec fn begins_with(path: Seq<int>, start: Seq<int>) -> bool {
    0 < start.len() <= path.len() && path.subrange(0, start.len() as int) == start
}

/// The explorations that a place on the path gets: all of them, or, where
/// only the end of the path is explored, all at the end and none before.
pub open spec fn explorations_at(place: Seq<int>, path: Seq<int>, times: int, last_only: bool) -> int {
    if !last_only || place.len() == path.len() {
        times
    } else {
        0
    }
}

/// The statistics of a place after the path was walked: a place on the path
/// is reached, and made where it was not there; every other place is as it
/// was.
pub open spec fn walked(
    before: Option<NodeStatistics>,
    place: Seq<int>,
    path: Seq<int>,
    score: int,
    times: int,
    last_only: bool,
) -> Option<NodeStatistics> {
    if begins_with(path, place) {
        Some(
            reached(
                match before {
                    Some(s) => s,
                    None => no_statistics(),
                },
                score,
                explorations_at(place, path, times, last_only),
            ),
        )
    } else {
        before
    }
}

/// A child that changes, but not its index, is found where it was, and so
/// is every other child.
proof fn lemma_place_after_update(
    children: Seq<ScoredNode>,
    at: int,
    child: ScoredNode,
    index: int,
    from: int,
)
    requires
        0 <= at < children.len(),
        0 <= from,
        child.data.index == children[at].data.index,
    ensures
        child_place(children.update(at, child), index, from) == child_place(children, index, from),
    decreases children.len() - from,
{
    if from < children.len() {
        lemma_place_after_update(children, at, child, index, from + 1);
    }
}

/// A child that joins the others is found there where no child had its
/// index; every other child is found where it was.
proof fn lemma_place_after_push(children: Seq<ScoredNode>, child: ScoredNode, index: int, from: int)
    requires
        0 <= from <= children.len(),
    ensures
        child_place(children.push(child), index, from) == match child_place(children, index, from) {
            Some(k) => Some(k),
            None => if child.data.index == index {
                Some(children.len() as int)
            } else {
                None
            },
        },
    decreases children.len() - from,
{
    if from < children.len() {
        assert(children.push(child)[from] == children[from]);
        lemma_place_after_push(children, child, index, from + 1);
    } else {
        assert(children.push(child)[from] == child);
        assert(child_place(children.push(child), index, from + 1) is None);
    }
}

/// A found child lies among the children and has the index.
proof fn lemma_place_is_child(children: Seq<ScoredNode>, index: int, from: int)
    requires
        0 <= from,
    ensures
        match child_place(children, index, from) {
            Some(k) => from <= k < children.len() && children[k].data.index == index,
            None => forall|k: int|
                from <= k < children.len() ==> (#[trigger] children[k]).data.index != index,
        },
    decreases children.len() - from,
{
    if from < children.len() && children[from].data.index != index {
        lemma_place_is_child(children, index, from + 1);
    }
}

/// A path that begins as a place does, begins with the place where the
/// rest of the path begins with the rest of the place.
proof fn lemma_begins_below(path: Seq<int>, place: Seq<int>)
    requires
        path.len() > 0,
        place.len() > 0,
        place[0] == path[0],
    ensures
        begins_with(path, place) == (place.len() == 1 || begins_with(
            path.drop_first(),
            place.drop_first(),
        )),
{
    let below = place.drop_first();
    let shorter = path.drop_first();
    let head = path.subrange(0, place.len() as int);
    let head_below = shorter.subrange(0, below.len() as int);
    if place.len() == 1 {
        assert(head =~= place);
    } else if place.len() <= path.len() {
        assert(below.len() == place.len() - 1);
        assert(shorter.len() == path.len() - 1);
        if head == place {
            assert forall|i: int| 0 <= i < below.len() implies head_below[i] == below[i] by {
                assert(head[i + 1] == place[i + 1]);
                assert(head_below[i] == path[i + 1]);
                assert(below[i] == place[i + 1]);
            }
            assert(head_below =~= below);
        }
        if head_below == below {
            assert forall|i: int| 0 <= i < place.len() implies head[i] == place[i] by {
                if i > 0 {
                    assert(head_below[i - 1] == below[i - 1]);
                    assert(head_below[i - 1] == path[i]);
                    assert(below[i - 1] == place[i]);
                }
            }
            assert(head =~= place);
        }
    }
}

/// A path begins with no place that begins otherwise.
proof fn lemma_begins_elsewhere(path: Seq<int>, place: Seq<int>)
    requires
        place.len() > 0,
        path.len() == 0 || place[0] != path[0],
    ensures
        !begins_with(path, place),
{
    if begins_with(path, place) {
        assert(path.subrange(0, place.len() as int)[0] == place[0]);
    }
}

impl ScoredNode {
    /// The statistics of the place that `path` leads to from this node,
    /// which is the node itself for the empty path; `None` where the tree
    /// has no such place.
    pub closed spec fn statistics_at(&self, path: Seq<int>) -> Option<NodeStatistics>
        decreases path.len(),
    {
        if path.len() == 0 {
            Some(
                NodeStatistics {
                    score: self.data.score as int,
                    times_explored: self.data.times_explored as int,
                },
            )
        } else {
            match child_place(self.children@, path[0], 0) {
                Some(k) => self.children[k].statistics_at(path.drop_first()),
                None => None,
            }
        }
    }

    /// The candidate index of the node.
    pub closed spec fn index(&self) -> int {
        self.data.index as int
    }

    /// A node that was not reached yet.
    pub fn new(index: usize) -> (r: Self)
        ensures
            r.index() == index,
            r.statistics_at(Seq::empty()) == Some(no_statistics()),
            forall|path: Seq<int>| path.len() > 0 ==> r.statistics_at(path) is None,
    {
        ScoredNode { children: Vec::new(), data: NodeData { index, score: 0, times_explored: 0 } }
    }

    /// What the node holds.
    pub fn get_data(&self) -> (r: &NodeData)
        ensures
            r.index == self.index(),
            self.statistics_at(Seq::empty()) == Some(
                NodeStatistics { score: r.score as int, times_explored: r.times_explored as int },
            ),
    {
        &self.data
    }

    /// The candidate index of the node.
    pub fn get_index(&self) -> (r: usize)
        ensures
            r == self.index(),
    {
        self.data.index
    }

    /// Whether the node has a child.
    pub fn has_children(&self) -> (r: bool)
        ensures
            r == exists|index: int| (#[trigger] self.statistics_at(seq![index])) is Some,
    {
        proof {
            if self.children.len() > 0 {
                let index = self.children[0].data.index as int;
                assert(child_place(self.children@, index, 0) == Some(0int));
                assert(seq![index].drop_first() =~= Seq::<int>::empty());
                assert(seq![index][0] == index);
                assert(self.children[0].statistics_at(Seq::<int>::empty()) is Some);
                assert(self.statistics_at(seq![index]) is Some);
            } else {
                assert forall|index: int| (#[trigger] self.statistics_at(seq![index])) is None by {
                    assert(child_place(self.children@, seq![index][0], 0) is None);
                }
            }
        }
        self.children.len() > 0
    }

    /// Whether the place that the path leads to from `from` on below the
    /// node has a place below it.
    pub fn has_children_at(&self, path: &Vec<usize>, from: usize) -> (r: bool)
        requires
            from <= path.len(),
        ensures
            r == exists|index: int|
                (#[trigger] self.statistics_at(
                    indexes_view(path@).subrange(from as int, path.len() as int).push(index),
                )) is Some,
        decreases path.len() - from,
    {
        let ghost rest = indexes_view(path@).subrange(from as int, path.len() as int);
        if from == path.len() {
            assert forall|index: int| rest.push(index) =~= #[trigger] seq![index] by {}
            assert forall|index: int| #[trigger]
                self.statistics_at(rest.push(index)) == self.statistics_at(seq![index]) by {
                assert(rest.push(index) =~= seq![index]);
            }
            return self.has_children();
        }
        let ghost shorter = indexes_view(path@).subrange(from + 1, path.len() as int);
        assert(rest[0] == path[from as int]);
        assert forall|index: int| #[trigger] rest.push(index).drop_first() == shorter.push(index) by {
            assert(rest.push(index).drop_first() =~= shorter.push(index));
        }
        assert forall|index: int| #[trigger] rest.push(index)[0] == rest[0] by {}
        match self.find_child(path[from]) {
            Some(k) => {
                let r = self.children[k].has_children_at(path, from + 1);
                proof {
                    assert forall|index: int| #[trigger]
                        self.statistics_at(rest.push(index)) == self.children[k as int].statistics_at(
                            shorter.push(index),
                        ) by {
                        assert(rest.push(index)[0] == rest[0]);
                        assert(rest.push(index).drop_first() == shorter.push(index));
                    }
                    if r {
                        let index = choose|index: int|
                            (#[trigger] self.children[k as int].statistics_at(shorter.push(index))) is Some;
                        assert(self.statistics_at(rest.push(index)) is Some);
                    }
                }
                r
            },
            None => {
                proof {
                    assert forall|index: int| (#[trigger] self.statistics_at(rest.push(index))) is None by {
                        assert(rest.push(index)[0] == rest[0]);
                    }
                }
                false
            },
        }
    }

    /// What is known of the place that the path leads to from `from` on
    /// below the node.
    pub fn get_statistics(&self, path: &Vec<usize>, from: usize) -> (r: Option<NodeData>)
        requires
            from <= path.len(),
        ensures
            match r {
                Some(data) => self.statistics_at(
                    indexes_view(path@).subrange(from as int, path.len() as int),
                ) == Some(
                    NodeStatistics {
                        score: data.score as int,
                        times_explored: data.times_explored as int,
                    },
                ) && data.index == if from < path.len() {
                    path[path.len() - 1] as int
                } else {
                    self.index()
                },
                None => self.statistics_at(
                    indexes_view(path@).subrange(from as int, path.len() as int),
                ) is None,
            },
        decreases path.len() - from,
    {
        let ghost rest = indexes_view(path@).subrange(from as int, path.len() as int);
        if from == path.len() {
            return Some(self.data);
        }
        assert(rest[0] == path[from as int]);
        assert(rest.drop_first() =~= indexes_view(path@).subrange(from + 1, path.len() as int));
        proof {
            lemma_place_is_child(self.children@, path[from as int] as int, 0);
        }
        match self.find_child(path[from]) {
            Some(k) => self.children[k].get_statistics(path, from + 1),
            None => None,
        }
    }

    /// The scores that reached the node, added up.
    pub fn get_total_score(&self) -> (r: u128)
        ensures
            self.statistics_at(Seq::empty()) matches Some(s) && s.score == r,
    {
        self.data.score
    }

    /// The number of times the node was explored.
    pub fn get_times_explored(&self) -> (r: usize)
        ensures
            self.statistics_at(Seq::empty()) matches Some(s) && s.times_explored == r,
    {
        self.data.times_explored
    }

    /// The score of the node: the scores that reached it, divided by the
    /// number of times it was explored and rounded down; zero before it was
    /// explored.
    pub fn get_score(&self) -> (r: u128)
        ensures
            self.statistics_at(Seq::empty()) matches Some(s) && r == average_score(s),
    {
        if self.data.times_explored == 0 {
            0
        } else {
            self.data.score / (self.data.times_explored as u128)
        }
    }

    /// Adds a score to those that reached the node.
    pub fn handle_score(&mut self, score: u128)
        ensures
            final(self).index() == old(self).index(),
            final(self).statistics_at(Seq::empty()) == Some(
                reached(old(self).statistics_at(Seq::empty())->0, score as int, 0),
            ),
            forall|path: Seq<int>|
                path.len() > 0 ==> final(self).statistics_at(path) == old(self).statistics_at(path),
    {
        self.data.score = self.data.score.saturating_add(score);
        assert forall|path: Seq<int>| path.len() > 0 implies self.statistics_at(path) == old(
            self,
        ).statistics_at(path) by {}
    }

    /// Counts `times` explorations of the node.
    pub fn handle_exploration(&mut self, times: usize)
        ensures
            final(self).index() == old(self).index(),
            final(self).statistics_at(Seq::empty()) == Some(
                reached(old(self).statistics_at(Seq::empty())->0, 0, times as int),
            ),
            forall|path: Seq<int>|
                path.len() > 0 ==> final(self).statistics_at(path) == old(self).statistics_at(path),
    {
        self.data.times_explored = self.data.times_explored.saturating_add(times);
        assert forall|path: Seq<int>| path.len() > 0 implies self.statistics_at(path) == old(
            self,
        ).statistics_at(path) by {}
    }

    /// The place of the child with the candidate index `index`.
    fn find_child(&self, index: usize) -> (r: Option<usize>)
        ensures
            match r {
                Some(k) => child_place(self.children@, index as int, 0) == Some(k as int) && k
                    < self.children.len(),
                None => child_place(self.children@, index as int, 0) is None,
            },
    {
        let mut k: usize = 0;
        while k < self.children.len()
            invariant
                k <= self.children.len(),
                child_place(self.children@, index as int, 0) == child_place(
                    self.children@,
                    index as int,
                    k as int,
                ),
            decreases self.children.len() - k,
        {
            if self.children[k].data.index == index {
                return Some(k);
            }
            k += 1;
        }
        None
    }

    /// Walks the path from `from` on below the node: each place on it is
    /// made where it is not there, gets the score, and gets the
    /// explorations; with `last_only`, only the end of the path gets them.
    pub fn walk(&mut self, path: &Vec<usize>, from: usize, score: u128, times: usize, last_only: bool)
        requires
            from <= path.len(),
        ensures
            final(self).index() == old(self).index(),
            final(self).statistics_at(Seq::empty()) == old(self).statistics_at(Seq::empty()),
            forall|place: Seq<int>|
                place.len() > 0 ==> final(self).statistics_at(place) == walked(
                    old(self).statistics_at(place),
                    place,
                    indexes_view(path@).subrange(from as int, path.len() as int),
                    score as int,
                    times as int,
                    last_only,
                ),
        decreases path.len() - from,
    {
        let ghost rest = indexes_view(path@).subrange(from as int, path.len() as int);
        let ghost old_children = self.children@;
        if from == path.len() {
            return ;
        }
        let index = path[from];
        assert(rest[0] == index);
        let ghost shorter = indexes_view(path@).subrange(from + 1, path.len() as int);
        assert(rest.drop_first() =~= shorter);
        let times_here: usize = if !last_only || from + 1 == path.len() {
            times
        } else {
            0
        };
        proof {
            lemma_place_is_child(old_children, index as int, 0);
        }
        match self.find_child(index) {
            Some(k) => {
                let ghost old_child = self.children[k as int];
                self.children[k].handle_score(score);
                self.children[k].handle_exploration(times_here);
                let ghost touched = self.children[k as int];
                self.children[k].walk(path, from + 1, score, times, last_only);
                let ghost new_child = self.children[k as int];
                proof {
                    assert(self.children@ =~= old_children.update(k as int, new_child));
                    assert forall|place: Seq<int>| place.len() > 0 implies self.statistics_at(
                        place,
                    ) == walked(
                        old(self).statistics_at(place),
                        place,
                        rest,
                        score as int,
                        times as int,
                        last_only,
                    ) by {
                        lemma_place_after_update(old_children, k as int, new_child, place[0], 0);
                        lemma_place_is_child(old_children, place[0], 0);
                        let below = place.drop_first();
                        if place[0] == index {
                            lemma_begins_below(rest, place);
                            assert(child_place(self.children@, place[0], 0) == Some(k as int));
                            assert(self.statistics_at(place) == new_child.statistics_at(below));
                            assert(old(self).statistics_at(place) == old_child.statistics_at(
                                below,
                            ));
                            if below.len() == 0 {
                                assert(below =~= Seq::<int>::empty());
                                assert(new_child.statistics_at(below) == touched.statistics_at(
                                    below,
                                ));
                                assert(begins_with(rest, place));
                            } else {
                                assert(touched.statistics_at(below) == old_child.statistics_at(
                                    below,
                                ));
                                assert(new_child.statistics_at(below) == walked(
                                    touched.statistics_at(below),
                                    below,
                                    shorter,
                                    score as int,
                                    times as int,
                                    last_only,
                                ));
                            }
                        } else {
                            lemma_begins_elsewhere(rest, place);
                        }
                    }
                }
            },
            None => {
                let mut child = ScoredNode::new(index);
                let ghost fresh = child;
                child.handle_score(score);
                child.handle_exploration(times_here);
                let ghost touched = child;
                child.walk(path, from + 1, score, times, last_only);
                self.children.push(child);
                proof {
                    assert(self.children@ =~= old_children.push(child));
                    assert forall|place: Seq<int>| place.len() > 0 implies self.statistics_at(
                        place,
                    ) == walked(
                        old(self).statistics_at(place),
                        place,
                        rest,
                        score as int,
                        times as int,
                        last_only,
                    ) by {
                        lemma_place_after_push(old_children, child, place[0], 0);
                        lemma_place_is_child(old_children, place[0], 0);
                        let below = place.drop_first();
                        if place[0] == index {
                            lemma_begins_below(rest, place);
                            assert(child_place(self.children@, place[0], 0) == Some(
                                old_children.len() as int,
                            ));
                            assert(self.children@[old_children.len() as int] == child);
                            assert(self.statistics_at(place) == child.statistics_at(below));
                            assert(old(self).statistics_at(place) is None);
                            if below.len() == 0 {
                                assert(below =~= Seq::<int>::empty());
                                assert(child.statistics_at(below) == touched.statistics_at(below));
                                assert(begins_with(rest, place));
                            } else {
                                assert(fresh.statistics_at(below) is None);
                                assert(touched.statistics_at(below) is None);
                                assert(child.statistics_at(below) == walked(
                                    touched.statistics_at(below),
                                    below,
                                    shorter,
                                    score as int,
                                    times as int,
                                    last_only,
                                ));
                            }
                        } else {
                            lemma_begins_elsewhere(rest, place);
                            let found = child_place(old_children, place[0], 0);
                            if found is Some {
                                assert(old_children.push(child)[found->0] == old_children[found->0]);
                            }
                        }
                    }
                }
            },
        }
    }
}

/// The score of a place: the scores that reached it, divided by the number
/// of times it was explored and rounded down; zero before it was explored.
pub open spec fn average_score(s: NodeStatistics) -> int {
    if s.times_explored == 0 {
        0
    } else {
        s.score / s.times_explored
    }
}

/// What a search has found out: the tree of the paths tried, and the
/// number of explorations in all.
pub struct MonteCarloExplorationData {
    roots: ScoredNode,
    total_explored: usize,
}

impl MonteCarloExplorationData {
    /// What is known of the place that `path` leads to; `None` where the
    /// tree has no such place. The empty path leads to no place.
    pub closed spec fn statistics_at(&self, path: Seq<int>) -> Option<NodeStatistics> {
        if path.len() == 0 {
            None
        } else {
            self.roots.statistics_at(path)
        }
    }

    /// The number of explorations in all.
    pub closed spec fn total_explored(&self) -> int {
        self.total_explored as int
    }

    /// A search that has tried nothing.
    pub fn new() -> (r: Self)
        ensures
            r.total_explored() == 0,
            forall|path: Seq<int>| r.statistics_at(path) is None,
    {
        MonteCarloExplorationData { roots: ScoredNode::new(0), total_explored: 0 }
    }

    /// The number of explorations in all.
    pub fn get_total_explored(&self) -> (r: usize)
        ensures
            r == self.total_explored(),
    {
        self.total_explored
    }

    /// Counts `times` explorations more in all.
    pub fn increment_total_explored(&mut self, times: usize)
        ensures
            final(self).total_explored() == if old(self).total_explored() + times > usize::MAX {
                usize::MAX as int
            } else {
                old(self).total_explored() + times
            },
            forall|path: Seq<int>| final(self).statistics_at(path) == old(self).statistics_at(path),
    {
        self.total_explored = self.total_explored.saturating_add(times);
    }

    /// What is known of the place that `path` leads to.
    pub fn get_statistics(&self, path: &Vec<usize>) -> (r: Option<NodeData>)
        ensures
            match r {
                Some(data) => self.statistics_at(indexes_view(path@)) == Some(
                    NodeStatistics {
                        score: data.score as int,
                        times_explored: data.times_explored as int,
                    },
                ) && path.len() > 0 && data.index == path[path.len() - 1],
                None => self.statistics_at(indexes_view(path@)) is None,
            },
    {
        assert(indexes_view(path@).subrange(0, path.len() as int) =~= indexes_view(path@));
        if path.len() == 0 {
            None
        } else {
            self.roots.get_statistics(path, 0)
        }
    }

    /// Whether the place that `path` leads to, or the tree as a whole for
    /// the empty path, has a place below it.
    pub fn progress_has_children(&self, path: &Vec<usize>) -> (r: bool)
        ensures
            r == exists|index: int|
                (#[trigger] self.statistics_at(indexes_view(path@).push(index))) is Some,
    {
        let ghost whole = indexes_view(path@);
        assert(whole.subrange(0, path.len() as int) =~= whole);
        let r = self.roots.has_children_at(path, 0);
        proof {
            assert forall|index: int| #[trigger]
                self.statistics_at(whole.push(index)) == self.roots.statistics_at(
                    whole.push(index),
                ) by {
                assert(whole.push(index).len() > 0);
            }
            if r {
                let index = choose|index: int|
                    (#[trigger] self.roots.statistics_at(whole.push(index))) is Some;
                assert(self.statistics_at(whole.push(index)) is Some);
            }
        }
        r
    }

    /// Makes the places on the path where they are not there.
    pub fn handle_expansion(&mut self, path: &Vec<usize>)
        ensures
            final(self).total_explored() == old(self).total_explored(),
            forall|place: Seq<int>|
                final(self).statistics_at(place) == walked(
                    old(self).statistics_at(place),
                    place,
                    indexes_view(path@),
                    0,
                    0,
                    false,
                ),
    {
        assert(indexes_view(path@).subrange(0, path.len() as int) =~= indexes_view(path@));
        self.roots.walk(path, 0, 0, 0, false);
    }

    /// Counts `times` explorations in all and of each place on the path.
    pub fn handle_exploration(&mut self, path: &Vec<usize>, times: usize)
        ensures
            final(self).total_explored() == if old(self).total_explored() + times > usize::MAX {
                usize::MAX as int
            } else {
                old(self).total_explored() + times
            },
            forall|place: Seq<int>|
                final(self).statistics_at(place) == walked(
                    old(self).statistics_at(place),
                    place,
                    indexes_view(path@),
                    0,
                    times as int,
                    false,
                ),
    {
        assert(indexes_view(path@).subrange(0, path.len() as int) =~= indexes_view(path@));
        self.total_explored = self.total_explored.saturating_add(times);
        self.roots.walk(path, 0, 0, times, false);
    }

    /// Adds the score to those of each place on the path.
    pub fn back_propagate_score(&mut self, path: &Vec<usize>, score: u128)
        ensures
            final(self).total_explored() == old(self).total_explored(),
            forall|place: Seq<int>|
                final(self).statistics_at(place) == walked(
                    old(self).statistics_at(place),
                    place,
                    indexes_view(path@),
                    score as int,
                    0,
                    false,
                ),
    {
        assert(indexes_view(path@).subrange(0, path.len() as int) =~= indexes_view(path@));
        self.roots.walk(path, 0, score, 0, false);
    }

    /// Takes in a playout through the path: its score is added to those of
    /// each place on the path, and the end of the path was explored once
    /// more.
    pub fn record_rollout(&mut self, path: &Vec<usize>, score: u128)
        ensures
            final(self).total_explored() == old(self).total_explored(),
            forall|place: Seq<int>|
                final(self).statistics_at(place) == walked(
                    old(self).statistics_at(place),
                    place,
                    indexes_view(path@),
                    score as int,
                    1,
                    true,
                ),
    {
        assert(indexes_view(path@).subrange(0, path.len() as int) =~= indexes_view(path@));
        self.roots.walk(path, 0, score, 1, true);
    }
}

} // verus!

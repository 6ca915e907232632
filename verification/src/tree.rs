//! The tree builder: it puts the lines of a text together into trees by their
//! indentation, and is the same for every dialect. A line is the child of the
//! nearest line before it that is less indented than itself; a line that has
//! no such line before it is a root. The builder reads the lines once, in
//! order, and keeps on a stack those that may still get children.

use crate::vecs::reversed;
use vstd::prelude::*;

verus! {

/// A line as the tree builder sees it: how far it is indented, whether it can
/// hold children, and the model of the tree node that it stands for.
pub struct Leveled<S> {
    pub level: usize,
    pub holds: bool,
    pub shape: S,
}

/// What the tree builder asks of the value that stands for a line: it has a
/// level, it can take a list of children or it cannot, and it turns into a
/// node of the finished tree.
pub trait TreeNode: Sized {
    /// A node of the finished tree.
    type Element;

    /// The mathematical model of a node of the finished tree.
    type Shape;

    /// The line that this value stands for.
    spec fn leveled(&self) -> Leveled<Self::Shape>;

    /// The model of a node of the finished tree.
    spec fn shape_of(element: &Self::Element) -> Self::Shape;

    /// `shape` with `children` put behind the children that it has.
    spec fn graft(shape: Self::Shape, children: Seq<Self::Shape>) -> Self::Shape;

    /// No children put behind leave the shape as it is.
    proof fn lemma_graft_nothing(shape: Self::Shape)
        ensures
            Self::graft(shape, Seq::empty()) == shape,
    ;

    /// Two lists put behind, one after the other, are both lists in a row put
    /// behind at once.
    proof fn lemma_graft_twice(
        shape: Self::Shape,
        first: Seq<Self::Shape>,
        second: Seq<Self::Shape>,
    )
        ensures
            Self::graft(Self::graft(shape, first), second) == Self::graft(shape, first + second),
    ;

    /// How far the line is indented.
    fn level(&self) -> (level: usize)
        ensures
            level == self.leveled().level,
    ;

    /// Whether the node takes children.
    fn holds_children(&self) -> (holds: bool)
        ensures
            holds == self.leveled().holds,
    ;

    /// Puts `children` behind the children that the node has.
    fn attach(&mut self, children: Vec<Self::Element>)
        requires
            old(self).leveled().holds,
        ensures
            final(self).leveled() == (Leveled {
                shape: Self::graft(
                    old(self).leveled().shape,
                    Seq::new(children@.len(), |i: int| Self::shape_of(&children@[i])),
                ),
                ..old(self).leveled()
            }),
    ;

    /// The node of the finished tree that the line stands for.
    fn into_element(self) -> (element: Self::Element)
        ensures
            Self::shape_of(&element) == self.leveled().shape,
    ;
}

/// The models of tree nodes.
pub open spec fn shapes<N: TreeNode>(elements: Seq<N::Element>) -> Seq<N::Shape> {
    Seq::new(elements.len(), |i: int| N::shape_of(&elements[i]))
}

/// The lines that builder values stand for.
pub open spec fn models<N: TreeNode>(nodes: Seq<N>) -> Seq<Leveled<N::Shape>> {
    Seq::new(nodes.len(), |i: int| nodes[i].leveled())
}

/// The shapes that lines carry.
pub open spec fn carried<S>(lines: Seq<Leveled<S>>) -> Seq<S> {
    Seq::new(lines.len(), |i: int| lines[i].shape)
}

/// How many lines at the head of `lines` are indented deeper than `level`.
pub open spec fn deeper_run<S>(lines: Seq<Leveled<S>>, level: usize) -> int
    decreases lines.len(),
{
    if lines.len() > 0 && lines[0].level > level {
        1 + deeper_run(lines.drop_first(), level)
    } else {
        0
    }
}

/// The trees that a sequence of lines stands for. The first line is the root
/// of the first tree; its children are the trees of the run of deeper lines
/// that follows it, put behind the children that it has; the trees of the
/// lines behind that run follow.
pub open spec fn forest<N: TreeNode>(lines: Seq<Leveled<N::Shape>>) -> Seq<N::Shape>
    decreases lines.len(),
    via forest_decreases::<N>
{
    if lines.len() == 0 {
        Seq::empty()
    } else {
        let under = deeper_run(lines.drop_first(), lines[0].level);
        seq![N::graft(lines[0].shape, forest::<N>(lines.subrange(1, 1 + under)))] + forest::<N>(
            lines.skip(1 + under),
        )
    }
}

#[via_fn]
proof fn forest_decreases<N: TreeNode>(lines: Seq<Leveled<N::Shape>>) {
    if lines.len() > 0 {
        lemma_deeper_run_bound(lines.drop_first(), lines[0].level);
    }
}

/// Line `i` is indented under the line before it, and that line holds no
/// children.
pub open spec fn misplaced<S>(lines: Seq<Leveled<S>>, i: int) -> bool {
    1 <= i < lines.len() && !lines[i - 1].holds && lines[i].level > lines[i - 1].level
}

/// None of the first `upto` lines is misplaced.
pub open spec fn well_placed<S>(lines: Seq<Leveled<S>>, upto: int) -> bool {
    forall|i: int| 0 <= i < upto ==> !misplaced(lines, i)
}

/// The index of the first misplaced line from `from` on, if there is one.
pub open spec fn first_misplaced<S>(lines: Seq<Leveled<S>>, from: int) -> Option<int>
    decreases lines.len() - from,
{
    if from >= lines.len() {
        None
    } else if misplaced(lines, from) {
        Some(from)
    } else {
        first_misplaced(lines, from + 1)
    }
}

/// The first misplaced line is the one that no misplaced line stands before.
pub proof fn lemma_first_misplaced<S>(lines: Seq<Leveled<S>>, from: int, i: int)
    requires
        0 <= from <= i,
        forall|j: int| from <= j < i ==> !misplaced(lines, j),
        i >= lines.len() || misplaced(lines, i),
    ensures
        first_misplaced(lines, from) == if i < lines.len() {
            Some(i)
        } else {
            None
        },
    decreases i - from,
{
    if from < i && from < lines.len() {
        lemma_first_misplaced(lines, from + 1, i);
    }
}

/// No misplaced line goes unseen: where one is there, the search from `from`
/// finds the first, and that one stands at or before any other.
pub proof fn lemma_misplaced_is_found<S>(lines: Seq<Leveled<S>>, from: int, i: int)
    requires
        0 <= from <= i,
        misplaced(lines, i),
    ensures
        first_misplaced(lines, from) matches Some(first) && from <= first <= i && misplaced(
            lines,
            first,
        ),
    decreases i - from,
{
    if !misplaced(lines, from) {
        lemma_misplaced_is_found(lines, from + 1, i);
    }
}

/// The run of deeper lines lies inside the lines; every line of it is deeper
/// than `level`, and the line behind it is not.
pub proof fn lemma_deeper_run_bound<S>(lines: Seq<Leveled<S>>, level: usize)
    ensures
        0 <= deeper_run(lines, level) <= lines.len(),
        forall|i: int| 0 <= i < deeper_run(lines, level) ==> (#[trigger] lines[i]).level > level,
        deeper_run(lines, level) < lines.len() ==> lines[deeper_run(lines, level)].level <= level,
    decreases lines.len(),
{
    if lines.len() > 0 && lines[0].level > level {
        let tail = lines.drop_first();
        lemma_deeper_run_bound(tail, level);
        assert forall|i: int| 0 <= i < deeper_run(lines, level) implies (#[trigger] lines[i]).level
            > level by {
            if i > 0 {
                assert(lines[i] == tail[i - 1]);
            }
        }
        if deeper_run(lines, level) < lines.len() {
            assert(lines[deeper_run(lines, level)] == tail[deeper_run(tail, level)]);
        }
    }
}

/// The run of deeper lines at the head of two sequences in a row: it ends
/// inside the first, or takes the first whole and goes on in the second.
pub proof fn lemma_deeper_run_concat<S>(a: Seq<Leveled<S>>, b: Seq<Leveled<S>>, level: usize)
    ensures
        0 <= deeper_run(a, level) <= a.len(),
        deeper_run(a + b, level) == if deeper_run(a, level) == a.len() {
            a.len() + deeper_run(b, level)
        } else {
            deeper_run(a, level)
        },
    decreases a.len(),
{
    lemma_deeper_run_bound(a, level);
    if a.len() == 0 {
        assert(a + b =~= b);
    } else if a[0].level > level {
        assert((a + b).drop_first() =~= a.drop_first() + b);
        lemma_deeper_run_concat(a.drop_first(), b, level);
    }
}

/// A run of lines that all lie deeper than `level` is taken whole.
pub proof fn lemma_deeper_run_all<S>(lines: Seq<Leveled<S>>, level: usize)
    requires
        forall|i: int| 0 <= i < lines.len() ==> (#[trigger] lines[i]).level > level,
    ensures
        deeper_run(lines, level) == lines.len(),
    decreases lines.len(),
{
    if lines.len() > 0 {
        let tail = lines.drop_first();
        assert forall|i: int| 0 <= i < tail.len() implies (#[trigger] tail[i]).level > level by {
            assert(tail[i] == lines[i + 1]);
        }
        lemma_deeper_run_all(tail, level);
    }
}

/// Lines of one level, followed by nothing deeper, are trees of their own:
/// each stands for its own shape, and the trees of what follows come behind.
pub proof fn lemma_forest_siblings<N: TreeNode>(
    run: Seq<Leveled<N::Shape>>,
    rest: Seq<Leveled<N::Shape>>,
    level: usize,
)
    requires
        forall|i: int| 0 <= i < run.len() ==> (#[trigger] run[i]).level == level,
        rest.len() == 0 || rest[0].level <= level,
    ensures
        forest::<N>(run + rest) == carried(run) + forest::<N>(rest),
    decreases run.len(),
{
    if run.len() == 0 {
        assert(run + rest =~= rest);
        assert(carried(run) + forest::<N>(rest) =~= forest::<N>(rest));
    } else {
        let all = run + rest;
        let tail = run.drop_first();
        assert(all.drop_first() =~= tail + rest);
        assert(all[0] == run[0]);
        if tail.len() > 0 {
            assert(tail[0] == run[1]);
            assert((tail + rest)[0].level <= level);
        } else if rest.len() > 0 {
            assert((tail + rest)[0] == rest[0]);
        }
        assert(deeper_run(all.drop_first(), all[0].level) == 0);
        assert(all.subrange(1, 1) =~= Seq::empty());
        assert(all.skip(1) =~= tail + rest);
        N::lemma_graft_nothing(run[0].shape);
        assert forall|i: int| 0 <= i < tail.len() implies (#[trigger] tail[i]).level == level by {
            assert(tail[i] == run[i + 1]);
        }
        lemma_forest_siblings::<N>(tail, rest, level);
        assert(carried(run) =~= seq![run[0].shape] + carried(tail));
        assert(forest::<N>(all.subrange(1, 1)) =~= Seq::empty());
        assert(forest::<N>(all) == seq![
            N::graft(all[0].shape, forest::<N>(all.subrange(1, 1))),
        ] + forest::<N>(all.skip(1)));
        assert(forest::<N>(all) =~= seq![run[0].shape] + (carried(tail) + forest::<N>(rest)));
        assert(seq![run[0].shape] + (carried(tail) + forest::<N>(rest)) =~= carried(run)
            + forest::<N>(rest));
    }
}

/// Trees keep the order of the lines. Where the lines `later` follow the lines
/// `earlier` and begin no deeper than any line of `earlier`, the trees of
/// `earlier` come first, as they are without `later`, and the trees of `later`
/// come behind them, as they are without `earlier`.
pub proof fn lemma_forest_keeps_order<N: TreeNode>(
    earlier: Seq<Leveled<N::Shape>>,
    later: Seq<Leveled<N::Shape>>,
)
    requires
        later.len() > 0 ==> forall|i: int|
            0 <= i < earlier.len() ==> (#[trigger] earlier[i]).level >= later[0].level,
    ensures
        forest::<N>(earlier + later) == forest::<N>(earlier) + forest::<N>(later),
    decreases earlier.len(),
{
    if earlier.len() == 0 {
        assert(earlier + later =~= later);
        assert(forest::<N>(earlier) + forest::<N>(later) =~= forest::<N>(later));
    } else {
        let all = earlier + later;
        let head = earlier[0];
        let tail = earlier.drop_first();
        assert(all[0] == head);
        assert(all.drop_first() =~= tail + later);
        lemma_deeper_run_concat(tail, later, head.level);
        let k = deeper_run(tail, head.level);
        assert(deeper_run(tail + later, head.level) == k);
        assert(all.subrange(1, 1 + k) =~= earlier.subrange(1, 1 + k));
        let left = earlier.skip(1 + k);
        assert(all.skip(1 + k) =~= left + later);
        if later.len() > 0 {
            assert forall|i: int| 0 <= i < left.len() implies (#[trigger] left[i]).level
                >= later[0].level by {
                assert(left[i] == earlier[1 + k + i]);
            }
        }
        lemma_forest_keeps_order::<N>(left, later);
        let first = seq![N::graft(head.shape, forest::<N>(earlier.subrange(1, 1 + k)))];
        assert(first + (forest::<N>(left) + forest::<N>(later)) =~= (first + forest::<N>(left))
            + forest::<N>(later));
    }
}

/// The children of a line are the trees of the deeper lines that follow it,
/// in their order, behind the children that the line has.
pub proof fn lemma_forest_children<N: TreeNode>(
    parent: Leveled<N::Shape>,
    under: Seq<Leveled<N::Shape>>,
)
    requires
        forall|i: int| 0 <= i < under.len() ==> (#[trigger] under[i]).level > parent.level,
    ensures
        forest::<N>(seq![parent] + under) == seq![N::graft(parent.shape, forest::<N>(under))],
{
    let all = seq![parent] + under;
    assert(all.drop_first() =~= under);
    lemma_deeper_run_all(under, parent.level);
    let n = under.len() as int;
    assert(all.subrange(1, 1 + n) =~= under);
    assert(all.skip(1 + n) =~= Seq::empty());
    assert(forest::<N>(all.skip(1 + n)) =~= Seq::empty());
}

/// Closing a run changes no tree. Where a line `parent` is followed by a run
/// of lines of one deeper level, and nothing deeper than the run comes behind
/// it, the run may be put behind the children of `parent` at once: the trees
/// are the same, whatever stands before `parent`.
pub proof fn lemma_forest_attach<N: TreeNode>(
    before: Seq<Leveled<N::Shape>>,
    parent: Leveled<N::Shape>,
    run: Seq<Leveled<N::Shape>>,
    rest: Seq<Leveled<N::Shape>>,
    grown: Leveled<N::Shape>,
    level: usize,
)
    requires
        forall|i: int| 0 <= i < run.len() ==> (#[trigger] run[i]).level == level,
        parent.level < level,
        rest.len() == 0 || rest[0].level <= level,
        grown.level == parent.level,
        grown.shape == N::graft(parent.shape, carried(run)),
    ensures
        forest::<N>(before + seq![parent] + run + rest) == forest::<N>(before + seq![grown] + rest),
    decreases before.len(),
{
    let old_all = before + seq![parent] + run + rest;
    let new_all = before + seq![grown] + rest;
    if before.len() == 0 {
        let old_tail = run + rest;
        assert(old_all.drop_first() =~= old_tail);
        assert(new_all.drop_first() =~= rest);
        assert(old_all[0] == parent);
        assert(new_all[0] == grown);
        assert forall|i: int| 0 <= i < run.len() implies (#[trigger] run[i]).level
            > parent.level by {}
        lemma_deeper_run_all(run, parent.level);
        lemma_deeper_run_concat(run, rest, parent.level);
        lemma_deeper_run_bound(rest, parent.level);
        let k = deeper_run(rest, parent.level);
        assert(deeper_run(old_tail, parent.level) == run.len() + k);
        assert(old_all.subrange(1, 1 + run.len() + k) =~= run + rest.take(k));
        assert(old_all.skip(1 + run.len() + k) =~= rest.skip(k));
        assert(new_all.subrange(1, 1 + k) =~= rest.take(k));
        assert(new_all.skip(1 + k) =~= rest.skip(k));
        if k > 0 {
            assert(rest.take(k)[0] == rest[0]);
        }
        lemma_forest_siblings::<N>(run, rest.take(k), level);
        N::lemma_graft_twice(parent.shape, carried(run), forest::<N>(rest.take(k)));
    } else {
        let head = before[0];
        let inner = before.drop_first();
        let old_mid = inner + seq![parent];
        let new_mid = inner + seq![grown];
        let old_tail = old_mid + (run + rest);
        let new_tail = new_mid + rest;
        assert(old_all.drop_first() =~= old_tail);
        assert(new_all.drop_first() =~= new_tail);
        assert(old_all[0] == head);
        assert(new_all[0] == head);
        lemma_deeper_run_same(old_mid, new_mid, head.level);
        lemma_deeper_run_concat(old_mid, run + rest, head.level);
        lemma_deeper_run_concat(new_mid, rest, head.level);
        lemma_deeper_run_bound(old_mid, head.level);
        let m = deeper_run(old_mid, head.level);
        if m < old_mid.len() {
            // the run of the head ends before the run that is closed
            assert(deeper_run(old_tail, head.level) == m);
            assert(deeper_run(new_tail, head.level) == m);
            assert(old_all.subrange(1, 1 + m) =~= inner.take(m));
            assert(new_all.subrange(1, 1 + m) =~= inner.take(m));
            let left = inner.skip(m);
            assert(old_all.skip(1 + m) =~= left + seq![parent] + run + rest);
            assert(new_all.skip(1 + m) =~= left + seq![grown] + rest);
            lemma_forest_attach::<N>(left, parent, run, rest, grown, level);
        } else {
            // the run of the head takes the closed run along
            assert(old_mid[old_mid.len() - 1] == parent);
            assert(parent.level > head.level);
            assert forall|i: int| 0 <= i < run.len() implies (#[trigger] run[i]).level
                > head.level by {}
            lemma_deeper_run_all(run, head.level);
            lemma_deeper_run_concat(run, rest, head.level);
            lemma_deeper_run_bound(rest, head.level);
            let k = deeper_run(rest, head.level);
            assert(deeper_run(old_tail, head.level) == old_mid.len() + run.len() + k);
            assert(deeper_run(new_tail, head.level) == new_mid.len() + k);
            let inside = rest.take(k);
            assert(old_all.subrange(1, 1 + old_mid.len() + run.len() + k) =~= inner + seq![parent]
                + run + inside);
            assert(new_all.subrange(1, 1 + new_mid.len() + k) =~= inner + seq![grown] + inside);
            assert(old_all.skip(1 + old_mid.len() + run.len() + k) =~= rest.skip(k));
            assert(new_all.skip(1 + new_mid.len() + k) =~= rest.skip(k));
            if k > 0 {
                assert(inside[0] == rest[0]);
            }
            lemma_forest_attach::<N>(inner, parent, run, inside, grown, level);
        }
    }
}

/// The run of deeper lines reads the levels only.
pub proof fn lemma_deeper_run_same<S>(a: Seq<Leveled<S>>, b: Seq<Leveled<S>>, level: usize)
    requires
        a.len() == b.len(),
        forall|i: int| 0 <= i < a.len() ==> (#[trigger] a[i]).level == b[i].level,
    ensures
        deeper_run(a, level) == deeper_run(b, level),
    decreases a.len(),
{
    if a.len() > 0 {
        assert(a[0].level == b[0].level);
        if a[0].level > level {
            let ta = a.drop_first();
            let tb = b.drop_first();
            assert forall|i: int| 0 <= i < ta.len() implies (#[trigger] ta[i]).level
                == tb[i].level by {
                assert(ta[i] == a[i + 1]);
                assert(tb[i] == b[i + 1]);
                assert(a[i + 1].level == b[i + 1].level);
            }
            lemma_deeper_run_same(ta, tb, level);
        }
    }
}

/// How many lines at the end of `lines` have the level `level`.
pub open spec fn trailing<S>(lines: Seq<Leveled<S>>, level: usize) -> int
    decreases lines.len(),
{
    if lines.len() > 0 && lines.last().level == level {
        1 + trailing(lines.drop_last(), level)
    } else {
        0
    }
}

/// The run at the end of a stack: the lines at its end that share the level of
/// the last.
pub open spec fn top_run<S>(lines: Seq<Leveled<S>>) -> int {
    trailing(lines, lines.last().level)
}

/// The lines of one level at the end lie inside the lines; every one of them
/// has the level, and the line before them has not.
pub proof fn lemma_trailing<S>(lines: Seq<Leveled<S>>, level: usize)
    ensures
        0 <= trailing(lines, level) <= lines.len(),
        forall|i: int|
            lines.len() - trailing(lines, level) <= i < lines.len() ==> (#[trigger] lines[i]).level
                == level,
        trailing(lines, level) < lines.len() ==> lines[lines.len() - trailing(lines, level)
            - 1].level != level,
    decreases lines.len(),
{
    if lines.len() > 0 && lines.last().level == level {
        let front = lines.drop_last();
        lemma_trailing(front, level);
        assert forall|i: int|
            lines.len() - trailing(lines, level) <= i < lines.len() implies (
        #[trigger] lines[i]).level == level by {
            if i < lines.len() - 1 {
                assert(lines[i] == front[i]);
            }
        }
        if trailing(lines, level) < lines.len() {
            assert(lines[lines.len() - trailing(lines, level) - 1] == front[front.len() - trailing(
                front,
                level,
            ) - 1]);
        }
    }
}

/// Takes the run at the end of the stack off it, and hands its lines out as
/// nodes of the finished tree, in the order in which they came in.
pub fn clean_stack<N: TreeNode>(stack: &mut Vec<N>) -> (leaves: Vec<N::Element>)
    requires
        old(stack).len() > 0,
    ensures
        1 <= top_run(models(old(stack)@)) <= old(stack).len(),
        final(stack)@ == old(stack)@.take(old(stack).len() - top_run(models(old(stack)@))),
        shapes::<N>(leaves@) == carried(
            models(old(stack)@).skip(old(stack).len() - top_run(models(old(stack)@))),
        ),
{
    let ghost all = stack@;
    let ghost lines = models(all);
    let leaf_level = stack[stack.len() - 1].level();
    let mut leaves: Vec<N::Element> = Vec::new();
    proof {
        assert(models(stack@) =~= lines.take(stack.len() as int));
    }
    while stack.len() > 0 && stack[stack.len() - 1].level() == leaf_level
        invariant
            lines == models(all),
            all.len() > 0,
            leaf_level == lines.last().level,
            stack.len() + leaves.len() == all.len(),
            stack@ == all.take(stack.len() as int),
            trailing(lines, leaf_level) == leaves.len() + trailing(
                lines.take(stack.len() as int),
                leaf_level,
            ),
            forall|i: int|
                0 <= i < leaves.len() ==> N::shape_of(&#[trigger] leaves@[i]) == lines[all.len() - 1
                    - i].shape,
        decreases stack.len(),
    {
        let ghost before = stack@;
        let node = stack.pop().unwrap();
        proof {
            assert(node == all[before.len() - 1]);
            assert(lines.take(before.len() as int).last() == node.leveled());
            assert(lines.take(before.len() as int).drop_last() =~= lines.take(stack.len() as int));
            assert(stack@ =~= all.take(stack.len() as int));
        }
        let element = node.into_element();
        leaves.push(element);
    }
    proof {
        let front = lines.take(stack.len() as int);
        if stack.len() > 0 {
            assert(front.last() == stack@.last().leveled());
        }
        assert(trailing(front, leaf_level) == 0);
        assert(lines.take(all.len() as int) =~= lines);
    }
    let turned = reversed(leaves);
    proof {
        assert(shapes::<N>(turned@) =~= carried(lines.skip(all.len() - top_run(lines))));
    }
    turned
}

/// A stack in order: the levels along it do not fall, and a line with a
/// deeper line above it holds children.
pub open spec fn rising<S>(stack: Seq<Leveled<S>>) -> bool {
    forall|a: int|
        0 <= a < stack.len() - 1 ==> (#[trigger] stack[a]).level <= stack[a + 1].level && (stack[a
            + 1].level > stack[a].level ==> stack[a].holds)
}

/// What the builder has reached when `index` lines are read: the trees that
/// are done, followed by the trees of the stack and of the lines still to
/// come, are the trees of all lines; and the stack is in order.
pub open spec fn settled<N: TreeNode>(
    lines: Seq<Leveled<N::Shape>>,
    roots: Seq<N::Shape>,
    stack: Seq<Leveled<N::Shape>>,
    index: int,
) -> bool {
    &&& 0 <= index <= lines.len()
    &&& forest::<N>(lines) == roots + forest::<N>(stack + lines.skip(index))
    &&& rising(stack)
}

/// The models follow a `push`.
proof fn lemma_models_push<N: TreeNode>(stack: Seq<N>, node: N)
    ensures
        models(stack.push(node)) == models(stack).push(node.leveled()),
{
    assert(models(stack.push(node)) =~= models(stack).push(node.leveled()));
}

/// The models of the first nodes are the first of the models.
proof fn lemma_models_take<N: TreeNode>(stack: Seq<N>, cut: int)
    requires
        0 <= cut <= stack.len(),
    ensures
        models(stack.take(cut)) == models(stack).take(cut),
{
    assert(models(stack.take(cut)) =~= models(stack).take(cut));
}

/// The shapes of two lists of nodes in a row are their shapes in a row.
proof fn lemma_shapes_concat<N: TreeNode>(a: Seq<N::Element>, b: Seq<N::Element>)
    ensures
        shapes::<N>(a + b) == shapes::<N>(a) + shapes::<N>(b),
{
    assert(shapes::<N>(a + b) =~= shapes::<N>(a) + shapes::<N>(b));
}

/// The line below the run at the end of a stack in order is less indented
/// than the run, and holds children.
proof fn lemma_below_run<S>(stack: Seq<Leveled<S>>)
    requires
        rising(stack),
        stack.len() > 0,
        top_run(stack) < stack.len(),
    ensures
        1 <= top_run(stack),
        stack[stack.len() - top_run(stack) - 1].level < stack.last().level,
        stack[stack.len() - top_run(stack) - 1].holds,
        forall|i: int|
            stack.len() - top_run(stack) <= i < stack.len() ==> (#[trigger] stack[i]).level
                == stack.last().level,
{
    lemma_trailing(stack, stack.last().level);
    let below = stack.len() - top_run(stack) - 1;
    assert(stack[below].level <= stack[below + 1].level);
    assert(stack[below + 1].level == stack.last().level);
}

/// Closing the run at the end of a stack that has nothing below the run: the
/// run joins the trees that are done.
proof fn lemma_close_roots<N: TreeNode>(
    roots: Seq<N::Shape>,
    stack: Seq<Leveled<N::Shape>>,
    rest: Seq<Leveled<N::Shape>>,
)
    requires
        stack.len() > 0,
        top_run(stack) == stack.len(),
        rest.len() == 0 || rest[0].level <= stack.last().level,
    ensures
        roots + forest::<N>(stack + rest) == (roots + carried(stack)) + forest::<N>(
            Seq::empty() + rest,
        ),
{
    lemma_trailing(stack, stack.last().level);
    lemma_forest_siblings::<N>(stack, rest, stack.last().level);
    assert(Seq::<Leveled<N::Shape>>::empty() + rest =~= rest);
    assert(roots + (carried(stack) + forest::<N>(rest)) =~= (roots + carried(stack)) + forest::<N>(
        rest,
    ));
}

/// Closing a run of one level at the end of a stack, from `cut` on, that has
/// a less indented line below it: the run joins the children of that line,
/// and the trees stay.
proof fn lemma_close_attach<N: TreeNode>(
    stack: Seq<Leveled<N::Shape>>,
    cut: int,
    rest: Seq<Leveled<N::Shape>>,
    grown: Leveled<N::Shape>,
    level: usize,
)
    requires
        0 < cut <= stack.len(),
        forall|i: int| cut <= i < stack.len() ==> (#[trigger] stack[i]).level == level,
        stack[cut - 1].level < level,
        rest.len() == 0 || rest[0].level <= level,
        grown.level == stack[cut - 1].level,
        grown.shape == N::graft(stack[cut - 1].shape, carried(stack.skip(cut))),
    ensures
        forest::<N>(stack + rest) == forest::<N>(stack.take(cut - 1).push(grown) + rest),
{
    let below = stack.take(cut - 1);
    let parent = stack[cut - 1];
    let run = stack.skip(cut);
    assert forall|i: int| 0 <= i < run.len() implies (#[trigger] run[i]).level == level by {
        assert(run[i] == stack[cut + i]);
    }
    lemma_forest_attach::<N>(below, parent, run, rest, grown, level);
    assert(stack + rest =~= below + seq![parent] + run + rest);
    assert(below.push(grown) + rest =~= below + seq![grown] + rest);
}

/// A stack in order stays in order where the lines from `cut` on are taken
/// off and the line below them is changed for one of its level that holds
/// children.
proof fn lemma_close_rising<S>(stack: Seq<Leveled<S>>, cut: int, grown: Leveled<S>)
    requires
        rising(stack),
        0 < cut <= stack.len(),
        grown.level == stack[cut - 1].level,
        grown.holds,
    ensures
        rising(stack.take(cut - 1).push(grown)),
{
    let closed = stack.take(cut - 1).push(grown);
    assert forall|a: int| 0 <= a < closed.len() - 1 implies (#[trigger] closed[a]).level <= closed[a
        + 1].level && (closed[a + 1].level > closed[a].level ==> closed[a].holds) by {
        assert(closed[a] == stack[a]);
        assert(closed[a + 1].level == stack[a + 1].level);
    }
}

/// Reading a line that is no less indented than the last of the stack, and
/// not deeper than it unless that line holds children, puts it on the stack.
proof fn lemma_push_settled<N: TreeNode>(
    lines: Seq<Leveled<N::Shape>>,
    roots: Seq<N::Shape>,
    stack: Seq<Leveled<N::Shape>>,
    index: int,
)
    requires
        settled::<N>(lines, roots, stack, index),
        index < lines.len(),
        stack.len() > 0 ==> stack.last().level <= lines[index].level && (lines[index].level
            > stack.last().level ==> stack.last().holds),
    ensures
        settled::<N>(lines, roots, stack.push(lines[index]), index + 1),
{
    let longer = stack.push(lines[index]);
    assert(longer + lines.skip(index + 1) =~= stack + lines.skip(index));
    assert forall|a: int| 0 <= a < longer.len() - 1 implies (#[trigger] longer[a]).level <= longer[a
        + 1].level && (longer[a + 1].level > longer[a].level ==> longer[a].holds) by {
        if a < longer.len() - 2 {
            assert(longer[a] == stack[a]);
            assert(longer[a + 1] == stack[a + 1]);
        }
    }
}

/// Closes the run at the end of the stack: its lines become the children of
/// the line below them, or trees of their own where nothing is below.
fn close_run<N: TreeNode>(
    stack: &mut Vec<N>,
    roots: &mut Vec<N::Element>,
    Ghost(rest): Ghost<Seq<Leveled<N::Shape>>>,
)
    requires
        old(stack).len() > 0,
        rest.len() == 0 || rest[0].level <= models(old(stack)@).last().level,
        rising(models(old(stack)@)),
    ensures
        final(stack).len() < old(stack).len(),
        shapes::<N>(final(roots)@) + forest::<N>(models(final(stack)@) + rest) == shapes::<N>(
            old(roots)@,
        ) + forest::<N>(models(old(stack)@) + rest),
        rising(models(final(stack)@)),
        final(stack).len() > 0 ==> models(final(stack)@).last().holds,
{
    let ghost all = stack@;
    let ghost lines = models(all);
    let ghost cut = all.len() - top_run(lines);
    let ghost done = shapes::<N>(roots@);
    let mut leaves = clean_stack(stack);
    proof {
        lemma_models_take::<N>(all, cut);
    }
    if stack.len() == 0 {
        proof {
            assert(lines.skip(0) =~= lines);
            lemma_close_roots::<N>(done, lines, rest);
            lemma_shapes_concat::<N>(roots@, leaves@);
            assert(models(stack@) =~= Seq::empty());
        }
        roots.append(&mut leaves);
    } else {
        let ghost below = stack@.drop_last();
        let mut parent = stack.pop().unwrap();
        proof {
            lemma_below_run(lines);
            assert(parent == all[cut - 1]);
            assert(parent.leveled() == lines[cut - 1]);
            assert(below =~= all.take(cut - 1));
            lemma_models_take::<N>(all, cut - 1);
            assert(Seq::new(leaves@.len(), |i: int| N::shape_of(&leaves@[i])) =~= shapes::<N>(
                leaves@,
            ));
        }
        parent.attach(leaves);
        proof {
            lemma_close_attach::<N>(lines, cut, rest, parent.leveled(), lines.last().level);
            lemma_close_rising(lines, cut, parent.leveled());
            lemma_models_push::<N>(below, parent);
        }
        stack.push(parent);
        proof {
            assert(stack@ =~= below.push(parent));
        }
    }
}

/// Builds the trees that a sequence of lines stands for. A stack holds the
/// lines that may still get children, the deepest last. A line that is less
/// indented than the last of the stack closes the run at its end: the run
/// becomes the children of the line below it, or trees of their own where
/// nothing is below. Fails with the index of the first line that is indented
/// under a line that holds no children.
pub fn build_forest<N: TreeNode>(nodes: Vec<N>) -> (built: Result<Vec<N::Element>, usize>)
    ensures
        match built {
            Ok(trees) => first_misplaced(models(nodes@), 0) is None && shapes::<N>(trees@)
                == forest::<N>(models(nodes@)),
            Err(i) => first_misplaced(models(nodes@), 0) == Some(i as int) && i < nodes.len(),
        },
{
    let ghost lines = models(nodes@);
    let total = nodes.len();
    let mut pending = reversed(nodes);
    let mut stack: Vec<N> = Vec::new();
    let mut roots: Vec<N::Element> = Vec::new();
    let mut index: usize = 0;
    proof {
        assert(models(stack@) + lines.skip(0) =~= lines);
        assert(shapes::<N>(roots@) + forest::<N>(lines) =~= forest::<N>(lines));
    }
    while pending.len() > 0
        invariant
            lines == models(nodes@),
            lines.len() == total,
            index + pending.len() == total,
            forall|j: int|
                0 <= j < pending.len() ==> (#[trigger] pending@[j]).leveled() == lines[total - 1
                    - j],
            settled::<N>(lines, shapes::<N>(roots@), models(stack@), index as int),
            stack.len() <= index,
            index > 0 ==> stack.len() > 0 && models(stack@).last().level == lines[index - 1].level
                && models(stack@).last().holds == lines[index - 1].holds,
            well_placed(lines, index as int),
        decreases pending.len(),
    {
        let node = pending.pop().unwrap();
        let ghost rest = lines.skip(index as int);
        let ghost mut popped = false;
        proof {
            assert(node.leveled() == lines[index as int]);
            assert(rest[0] == lines[index as int]);
        }
        while stack.len() > 0 && node.level() < stack[stack.len() - 1].level()
            invariant
                lines == models(nodes@),
                lines.len() == total,
                index < total,
                rest == lines.skip(index as int),
                node.leveled() == lines[index as int],
                settled::<N>(lines, shapes::<N>(roots@), models(stack@), index as int),
                stack.len() <= index,
                !popped ==> (index > 0 ==> stack.len() > 0 && models(stack@).last().level
                    == lines[index - 1].level && models(stack@).last().holds == lines[index
                    - 1].holds),
                popped ==> index > 0 && node.leveled().level < lines[index - 1].level && (
                stack.len() == 0 || models(stack@).last().holds),
            decreases stack.len(),
        {
            proof {
                assert(rest[0] == lines[index as int] && rest.len() > 0);
                assert(models(stack@).last() == stack@.last().leveled());
            }
            close_run(&mut stack, &mut roots, Ghost(rest));
            proof {
                popped = true;
            }
        }
        if stack.len() > 0 {
            let top = &stack[stack.len() - 1];
            proof {
                assert(models(stack@).last() == top.leveled());
            }
            if node.level() > top.level() && !top.holds_children() {
                proof {
                    lemma_first_misplaced(lines, 0, index as int);
                }
                return Err(index);
            }
        }
        proof {
            if stack.len() > 0 {
                assert(models(stack@).last() == stack@.last().leveled());
            }
            lemma_push_settled::<N>(
                lines,
                shapes::<N>(roots@),
                models(stack@),
                index as int,
            );
            lemma_models_push::<N>(stack@, node);
            assert(!misplaced(lines, index as int));
        }
        stack.push(node);
        index += 1;
    }
    while stack.len() > 0
        invariant
            lines == models(nodes@),
            index == total,
            lines.len() == total,
            well_placed(lines, total as int),
            settled::<N>(lines, shapes::<N>(roots@), models(stack@), index as int),
        decreases stack.len(),
    {
        close_run(&mut stack, &mut roots, Ghost(lines.skip(index as int)));
    }
    proof {
        assert(models(stack@) + lines.skip(index as int) =~= Seq::empty());
        assert(shapes::<N>(roots@) + forest::<N>(Seq::empty()) =~= shapes::<N>(roots@));
        lemma_first_misplaced(lines, 0, total as int);
    }
    Ok(roots)
}

/// What the order of the nodes asks of a kind of tree: its nodes can be
/// walked, and what is put behind the children of a node comes last in the
/// walk.
pub trait DocumentOrder: TreeNode {
    /// Whether a shape has room for children.
    spec fn roomy(shape: Self::Shape) -> bool;

    /// The nodes of a tree in document order: each node before its children,
    /// the children in their order, and each node given without its children.
    spec fn walk(shape: Self::Shape) -> Seq<Self::Shape>;

    /// A child put behind the last child is walked last.
    proof fn lemma_walk_graft(
        shape: Self::Shape,
        children: Seq<Self::Shape>,
        child: Self::Shape,
    )
        requires
            Self::roomy(shape),
        ensures
            Self::walk(Self::graft(shape, children.push(child))) == Self::walk(
                Self::graft(shape, children),
            ) + Self::walk(child),
    ;
}

/// The nodes of a list of trees in document order: those of the first tree,
/// then those of the second, and so on.
pub open spec fn walk_all<N: DocumentOrder>(shapes: Seq<N::Shape>) -> Seq<N::Shape>
    decreases shapes.len(),
{
    if shapes.len() == 0 {
        Seq::empty()
    } else {
        walk_all::<N>(shapes.drop_last()) + N::walk(shapes.last())
    }
}

/// Every line that is said to hold children stands for a shape that has room
/// for them.
pub open spec fn sound<N: DocumentOrder>(lines: Seq<Leveled<N::Shape>>) -> bool {
    forall|i: int| 0 <= i < lines.len() && (#[trigger] lines[i]).holds ==> N::roomy(lines[i].shape)
}

/// The walk of one tree alone is its own walk.
pub proof fn lemma_walk_all_one<N: DocumentOrder>(shape: N::Shape)
    ensures
        walk_all::<N>(seq![shape]) == N::walk(shape),
{
    let one = seq![shape];
    assert(one.drop_last() =~= Seq::empty());
    assert(walk_all::<N>(one.drop_last()) =~= Seq::empty());
    assert(walk_all::<N>(one) == walk_all::<N>(one.drop_last()) + N::walk(one.last()));
    assert(Seq::<N::Shape>::empty() + N::walk(shape) =~= N::walk(shape));
}

/// The walk of two lists of trees in a row is their walks in a row.
pub proof fn lemma_walk_all_concat<N: DocumentOrder>(a: Seq<N::Shape>, b: Seq<N::Shape>)
    ensures
        walk_all::<N>(a + b) == walk_all::<N>(a) + walk_all::<N>(b),
    decreases b.len(),
{
    if b.len() == 0 {
        assert(a + b =~= a);
        assert(walk_all::<N>(a) + walk_all::<N>(b) =~= walk_all::<N>(a));
    } else {
        lemma_walk_all_concat::<N>(a, b.drop_last());
        assert((a + b).drop_last() =~= a + b.drop_last());
        assert((a + b).last() == b.last());
        assert((walk_all::<N>(a) + walk_all::<N>(b.drop_last())) + N::walk(b.last()) =~= walk_all::<
            N,
        >(a) + (walk_all::<N>(b.drop_last()) + N::walk(b.last())));
    }
}

/// Children put behind the children of a node are walked behind the node and
/// the children that it has.
pub proof fn lemma_walk_graft_all<N: DocumentOrder>(shape: N::Shape, children: Seq<N::Shape>)
    requires
        N::roomy(shape),
    ensures
        N::walk(N::graft(shape, children)) == N::walk(shape) + walk_all::<N>(children),
    decreases children.len(),
{
    if children.len() == 0 {
        N::lemma_graft_nothing(shape);
        assert(children =~= Seq::empty());
        assert(N::walk(shape) + walk_all::<N>(children) =~= N::walk(shape));
    } else {
        let front = children.drop_last();
        lemma_walk_graft_all::<N>(shape, front);
        N::lemma_walk_graft(shape, front, children.last());
        assert(front.push(children.last()) =~= children);
        assert((N::walk(shape) + walk_all::<N>(front)) + N::walk(children.last()) =~= N::walk(shape)
            + (walk_all::<N>(front) + N::walk(children.last())));
    }
}

/// The trees hold every line, in the order of the lines. Where no line is
/// misplaced, the trees walked in document order give the nodes of the first
/// line, then those of the second, and so on: no line is lost, and none comes
/// before a line that stood before it.
pub proof fn lemma_forest_document_order<N: DocumentOrder>(lines: Seq<Leveled<N::Shape>>)
    requires
        sound::<N>(lines),
        first_misplaced(lines, 0) is None,
    ensures
        walk_all::<N>(forest::<N>(lines)) == walk_all::<N>(carried(lines)),
{
    lemma_never_misplaced(lines, 0);
    lemma_forest_walk::<N>(lines);
}

/// Where no misplaced line is found from `from` on, none is there.
pub proof fn lemma_never_misplaced<S>(lines: Seq<Leveled<S>>, from: int)
    requires
        0 <= from,
        first_misplaced(lines, from) is None,
    ensures
        forall|i: int| from <= i < lines.len() ==> !misplaced(lines, i),
    decreases lines.len() - from,
{
    if from < lines.len() {
        lemma_never_misplaced(lines, from + 1);
    }
}

/// The walk of the trees is the walk of the lines, where no line is
/// misplaced.
proof fn lemma_forest_walk<N: DocumentOrder>(lines: Seq<Leveled<N::Shape>>)
    requires
        sound::<N>(lines),
        well_placed(lines, lines.len() as int),
    ensures
        walk_all::<N>(forest::<N>(lines)) == walk_all::<N>(carried(lines)),
    decreases lines.len(),
{
    if lines.len() == 0 {
        assert(carried(lines) =~= Seq::empty());
    } else {
        let head = lines[0];
        lemma_deeper_run_bound(lines.drop_first(), head.level);
        let under = deeper_run(lines.drop_first(), head.level);
        let span = lines.subrange(1, 1 + under);
        let rest = lines.skip(1 + under);
        assert forall|i: int| 0 <= i < span.len() implies !misplaced(span, i) by {
            assert(span[i] == lines[1 + i]);
            if i >= 1 {
                assert(span[i - 1] == lines[i]);
                assert(!misplaced(lines, 1 + i));
            }
        }
        assert forall|i: int| 0 <= i < rest.len() implies !misplaced(rest, i) by {
            assert(rest[i] == lines[1 + under + i]);
            if i >= 1 {
                assert(rest[i - 1] == lines[under + i]);
                assert(!misplaced(lines, 1 + under + i));
            }
        }
        assert forall|i: int| 0 <= i < span.len() && (#[trigger] span[i]).holds implies N::roomy(
            span[i].shape,
        ) by {
            assert(span[i] == lines[1 + i]);
        }
        assert forall|i: int| 0 <= i < rest.len() && (#[trigger] rest[i]).holds implies N::roomy(
            rest[i].shape,
        ) by {
            assert(rest[i] == lines[1 + under + i]);
        }
        lemma_forest_walk::<N>(span);
        lemma_forest_walk::<N>(rest);
        let children = forest::<N>(span);
        let first = N::graft(head.shape, children);
        if under == 0 {
            assert(span =~= Seq::empty());
            assert(children =~= Seq::empty());
            N::lemma_graft_nothing(head.shape);
            assert(N::walk(head.shape) + walk_all::<N>(carried(span)) =~= N::walk(head.shape));
        } else {
            assert(lines.drop_first()[0] == lines[1]);
            assert(!misplaced(lines, 1));
            assert(head.holds);
            lemma_walk_graft_all::<N>(head.shape, children);
        }
        assert(N::walk(first) == N::walk(head.shape) + walk_all::<N>(carried(span)));
        lemma_walk_all_concat::<N>(seq![first], forest::<N>(rest));
        lemma_walk_all_one::<N>(first);
        assert(carried(lines) =~= seq![head.shape] + carried(span) + carried(rest));
        lemma_walk_all_concat::<N>(seq![head.shape] + carried(span), carried(rest));
        lemma_walk_all_concat::<N>(seq![head.shape], carried(span));
        lemma_walk_all_one::<N>(head.shape);
    }
}

} // verus!

//! The binary compositions of a sequence, as a mathematical model: which
//! trees there are, in which order they are listed, how many they are, and
//! when a stored link stands for one.

use crate::catalan::{catalan_convolution, catalan_number, lemma_catalan_positive};
use crate::link::is_link_ref;
use crate::store::{end_matches, preserved, unique_pairs};
use vstd::prelude::*;

verus! {

/// A full binary tree over references: a bare reference, or the composition
/// of a left and a right tree.
pub enum Shape {
    Leaf(usize),
    Pair(Box<Shape>, Box<Shape>),
}

/// `left` composed with every tree of `rights`, in their order.
pub open spec fn pair_row(left: Shape, rights: Seq<Shape>) -> Seq<Shape> {
    Seq::new(rights.len(), |j: int| Shape::Pair(Box::new(left), Box::new(rights[j])))
}

/// Every tree of `lefts` composed with every tree of `rights`: the rows of
/// the first left tree, then those of the second, and so on.
pub open spec fn pairings(lefts: Seq<Shape>, rights: Seq<Shape>) -> Seq<Shape>
    decreases lefts.len(),
{
    if lefts.len() == 0 {
        Seq::empty()
    } else {
        pairings(lefts.drop_last(), rights) + pair_row(lefts.last(), rights)
    }
}

/// Every composition of `seq`, in the order of enumeration: a single
/// reference is its own sole composition; a longer sequence is cut after its
/// first element, then after its second, and so on, and for each cut every
/// composition of the part before it is paired with every composition of the
/// part after it.
pub open spec fn shapes(seq: Seq<usize>) -> Seq<Shape>
    decreases seq.len(), seq.len() + 1,
{
    if seq.len() == 0 {
        Seq::empty()
    } else if seq.len() == 1 {
        seq![Shape::Leaf(seq[0])]
    } else {
        shapes_of_cuts(seq, (seq.len() - 1) as nat)
    }
}

/// The compositions of `seq` whose outermost cut lies after one of its first
/// `cuts` elements.
pub open spec fn shapes_of_cuts(seq: Seq<usize>, cuts: nat) -> Seq<Shape>
    decreases seq.len(), cuts,
{
    if cuts == 0 || cuts >= seq.len() {
        Seq::empty()
    } else {
        shapes_of_cuts(seq, (cuts - 1) as nat) + pairings(
            shapes(seq.take(cuts as int)),
            shapes(seq.skip(cuts as int)),
        )
    }
}

/// The references at the leaves of `shape`, from left to right.
pub open spec fn leaves(shape: Shape) -> Seq<usize>
    decreases shape,
{
    match shape {
        Shape::Leaf(r) => seq![r],
        Shape::Pair(left, right) => leaves(*left) + leaves(*right),
    }
}

/// Whether the reference `root` stands for `shape` among `links`: a leaf is
/// the reference itself, and a composition is a stored link whose source
/// stands for the left tree and whose target stands for the right one.
pub open spec fn denotes(links: Map<usize, (usize, usize)>, root: usize, shape: Shape) -> bool
    decreases shape,
{
    match shape {
        Shape::Leaf(r) => root == r,
        Shape::Pair(left, right) => {
            &&& links.contains_key(root)
            &&& denotes(links, links[root].0, *left)
            &&& denotes(links, links[root].1, *right)
        },
    }
}

/// Whether each reference of `roots` stands for the tree at the same place
/// of `trees`.
pub open spec fn all_denote(
    links: Map<usize, (usize, usize)>,
    roots: Seq<usize>,
    trees: Seq<Shape>,
) -> bool {
    &&& roots.len() == trees.len()
    &&& forall|i: int| 0 <= i < roots.len() ==> denotes(links, #[trigger] roots[i], trees[i])
}

/// Whether the reference `end` can stand for `shape` among `links` where a
/// wildcard leaf accepts every reference: a leaf accepts the reference, and
/// a composition is a stored link whose source can stand for the left tree
/// and whose target for the right one.
pub open spec fn fits(links: Map<usize, (usize, usize)>, end: usize, shape: Shape) -> bool
    decreases shape,
{
    match shape {
        Shape::Leaf(r) => end_matches(r, end),
        Shape::Pair(left, right) => {
            &&& links.contains_key(end)
            &&& is_link_ref(end)
            &&& fits(links, links[end].0, *left)
            &&& fits(links, links[end].1, *right)
        },
    }
}

/// Whether each reference of `roots` can stand for the tree at the same
/// place of `trees`.
pub open spec fn all_fit(
    links: Map<usize, (usize, usize)>,
    roots: Seq<usize>,
    trees: Seq<Shape>,
) -> bool {
    &&& roots.len() == trees.len()
    &&& forall|i: int| 0 <= i < roots.len() ==> fits(links, #[trigger] roots[i], trees[i])
}

/// Whether each reference of `roots` is the index of a stored link.
pub open spec fn all_stored(links: Map<usize, (usize, usize)>, roots: Seq<usize>) -> bool {
    forall|i: int|
        0 <= i < roots.len() ==> links.contains_key(#[trigger] roots[i]) && is_link_ref(roots[i])
}

/// Whether `root` stands among `links` for a composition of some stretch of
/// two or more neighbouring references of `seq`.
pub open spec fn composes_part(
    links: Map<usize, (usize, usize)>,
    seq: Seq<usize>,
    root: usize,
) -> bool {
    exists|lo: int, hi: int, tree: Shape|
        {
            &&& 0 <= lo
            &&& lo + 2 <= hi <= seq.len()
            &&& #[trigger] shapes(seq.subrange(lo, hi)).contains(tree)
            &&& #[trigger] denotes(links, root, tree)
        }
}

/// Whether every link of `after` that `before` did not hold stands for a
/// composition of some stretch of `seq`.
pub open spec fn adds_only_compositions(
    before: Map<usize, (usize, usize)>,
    seq: Seq<usize>,
    after: Map<usize, (usize, usize)>,
) -> bool {
    forall|i: usize| #[trigger]
        after.contains_key(i) && !before.contains_key(i) ==> composes_part(after, seq, i)
}

/// Whether `source` and `target` stand among `links` for compositions of two
/// stretches of `seq` of which the second begins where the first ends.
pub open spec fn joins_parts(
    links: Map<usize, (usize, usize)>,
    seq: Seq<usize>,
    source: usize,
    target: usize,
) -> bool {
    exists|lo: int, mid: int, hi: int, left: Shape, right: Shape|
        {
            &&& 0 <= lo < mid < hi <= seq.len()
            &&& #[trigger] shapes(seq.subrange(lo, mid)).contains(left)
            &&& #[trigger] shapes(seq.subrange(mid, hi)).contains(right)
            &&& denotes(links, source, left)
            &&& denotes(links, target, right)
        }
}

/// A reference keeps standing for a tree when links are added.
pub proof fn lemma_denotes_grows(
    links: Map<usize, (usize, usize)>,
    more: Map<usize, (usize, usize)>,
    root: usize,
    shape: Shape,
)
    requires
        preserved(links, more),
        denotes(links, root, shape),
    ensures
        denotes(more, root, shape),
    decreases shape,
{
    match shape {
        Shape::Leaf(_) => {},
        Shape::Pair(left, right) => {
            lemma_denotes_grows(links, more, links[root].0, *left);
            lemma_denotes_grows(links, more, links[root].1, *right);
        },
    }
}

/// References keep standing for their trees when links are added.
pub proof fn lemma_all_denote_grows(
    links: Map<usize, (usize, usize)>,
    more: Map<usize, (usize, usize)>,
    roots: Seq<usize>,
    trees: Seq<Shape>,
)
    requires
        preserved(links, more),
        all_denote(links, roots, trees),
    ensures
        all_denote(more, roots, trees),
{
    assert forall|i: int| 0 <= i < roots.len() implies denotes(
        more,
        #[trigger] roots[i],
        trees[i],
    ) by {
        lemma_denotes_grows(links, more, roots[i], trees[i]);
    }
}

/// In a store without duplicate pairs a tree has at most one reference.
pub proof fn lemma_denotes_unique(
    links: Map<usize, (usize, usize)>,
    a: usize,
    b: usize,
    shape: Shape,
)
    requires
        unique_pairs(links),
        denotes(links, a, shape),
        denotes(links, b, shape),
    ensures
        a == b,
    decreases shape,
{
    match shape {
        Shape::Leaf(_) => {},
        Shape::Pair(left, right) => {
            lemma_denotes_unique(links, links[a].0, links[b].0, *left);
            lemma_denotes_unique(links, links[a].1, links[b].1, *right);
        },
    }
}

/// A reference keeps fitting a tree when links are added.
pub proof fn lemma_fits_grows(
    links: Map<usize, (usize, usize)>,
    more: Map<usize, (usize, usize)>,
    end: usize,
    shape: Shape,
)
    requires
        preserved(links, more),
        fits(links, end, shape),
    ensures
        fits(more, end, shape),
    decreases shape,
{
    match shape {
        Shape::Leaf(_) => {},
        Shape::Pair(left, right) => {
            lemma_fits_grows(links, more, links[end].0, *left);
            lemma_fits_grows(links, more, links[end].1, *right);
        },
    }
}

/// References keep fitting their trees when links are added.
pub proof fn lemma_all_fit_grows(
    links: Map<usize, (usize, usize)>,
    more: Map<usize, (usize, usize)>,
    roots: Seq<usize>,
    trees: Seq<Shape>,
)
    requires
        preserved(links, more),
        all_fit(links, roots, trees),
    ensures
        all_fit(more, roots, trees),
{
    assert forall|i: int| 0 <= i < roots.len() implies fits(more, #[trigger] roots[i], trees[i]) by {
        lemma_fits_grows(links, more, roots[i], trees[i]);
    }
}

/// What a reference fits, every end that it accepts fits too: only the
/// wildcard accepts another reference than itself, and it fits nothing but
/// a wildcard leaf.
pub proof fn lemma_fits_accepted(
    links: Map<usize, (usize, usize)>,
    pattern: usize,
    end: usize,
    shape: Shape,
)
    requires
        fits(links, pattern, shape),
        end_matches(pattern, end),
    ensures
        fits(links, end, shape),
{
}

/// A composition of a stretch stays one when links are added.
pub proof fn lemma_composes_part_grows(
    links: Map<usize, (usize, usize)>,
    more: Map<usize, (usize, usize)>,
    seq: Seq<usize>,
    root: usize,
)
    requires
        preserved(links, more),
        composes_part(links, seq, root),
    ensures
        composes_part(more, seq, root),
{
    let (lo, hi, tree) = choose|lo: int, hi: int, tree: Shape|
        {
            &&& 0 <= lo
            &&& lo + 2 <= hi <= seq.len()
            &&& #[trigger] shapes(seq.subrange(lo, hi)).contains(tree)
            &&& #[trigger] denotes(links, root, tree)
        };
    lemma_denotes_grows(links, more, root, tree);
}

/// A composition of a stretch of a stretch of `seq` is one of a stretch of
/// `seq`.
pub proof fn lemma_composes_part_of_part(
    links: Map<usize, (usize, usize)>,
    seq: Seq<usize>,
    from: int,
    to: int,
    root: usize,
)
    requires
        0 <= from <= to <= seq.len(),
        composes_part(links, seq.subrange(from, to), root),
    ensures
        composes_part(links, seq, root),
{
    let part = seq.subrange(from, to);
    let (lo, hi, tree) = choose|lo: int, hi: int, tree: Shape|
        {
            &&& 0 <= lo
            &&& lo + 2 <= hi <= part.len()
            &&& #[trigger] shapes(part.subrange(lo, hi)).contains(tree)
            &&& #[trigger] denotes(links, root, tree)
        };
    assert(part.subrange(lo, hi) =~= seq.subrange(from + lo, from + hi));
    assert(shapes(seq.subrange(from + lo, from + hi)).contains(tree));
}

/// Compositions of two neighbouring stretches of a stretch of `seq` are
/// compositions of two neighbouring stretches of `seq`.
pub proof fn lemma_joins_parts_of_part(
    links: Map<usize, (usize, usize)>,
    seq: Seq<usize>,
    from: int,
    to: int,
    source: usize,
    target: usize,
)
    requires
        0 <= from <= to <= seq.len(),
        joins_parts(links, seq.subrange(from, to), source, target),
    ensures
        joins_parts(links, seq, source, target),
{
    let part = seq.subrange(from, to);
    let (lo, mid, hi, left, right) = choose|lo: int, mid: int, hi: int, left: Shape, right: Shape|
        {
            &&& 0 <= lo < mid < hi <= part.len()
            &&& #[trigger] shapes(part.subrange(lo, mid)).contains(left)
            &&& #[trigger] shapes(part.subrange(mid, hi)).contains(right)
            &&& denotes(links, source, left)
            &&& denotes(links, target, right)
        };
    assert(part.subrange(lo, mid) =~= seq.subrange(from + lo, from + mid));
    assert(part.subrange(mid, hi) =~= seq.subrange(from + mid, from + hi));
    lemma_joins_parts_found(
        links,
        seq,
        from + lo,
        from + mid,
        from + hi,
        left,
        right,
        source,
        target,
    );
}

/// Two references that stand for compositions of two neighbouring stretches
/// join parts.
pub proof fn lemma_joins_parts_found(
    links: Map<usize, (usize, usize)>,
    seq: Seq<usize>,
    lo: int,
    mid: int,
    hi: int,
    left: Shape,
    right: Shape,
    source: usize,
    target: usize,
)
    requires
        0 <= lo < mid < hi <= seq.len(),
        shapes(seq.subrange(lo, mid)).contains(left),
        shapes(seq.subrange(mid, hi)).contains(right),
        denotes(links, source, left),
        denotes(links, target, right),
    ensures
        joins_parts(links, seq, source, target),
{
}

/// What a later step adds to a store joins what the earlier steps added.
pub proof fn lemma_adds_only_compositions_later(
    before: Map<usize, (usize, usize)>,
    between: Map<usize, (usize, usize)>,
    after: Map<usize, (usize, usize)>,
    seq: Seq<usize>,
    from: int,
    to: int,
)
    requires
        0 <= from <= to <= seq.len(),
        preserved(between, after),
        adds_only_compositions(before, seq, between),
        adds_only_compositions(between, seq.subrange(from, to), after),
    ensures
        adds_only_compositions(before, seq, after),
{
    assert forall|i: usize| #[trigger]
        after.contains_key(i) && !before.contains_key(i) implies composes_part(after, seq, i) by {
        if between.contains_key(i) {
            lemma_composes_part_grows(between, after, seq, i);
        } else {
            lemma_composes_part_of_part(after, seq, from, to, i);
        }
    }
}

/// A step that adds at most the link `index`, which stands for a composition
/// of the whole of `seq`, adds only compositions.
pub proof fn lemma_adds_one_composition(
    before: Map<usize, (usize, usize)>,
    held: Map<usize, (usize, usize)>,
    after: Map<usize, (usize, usize)>,
    seq: Seq<usize>,
    index: usize,
    tree: Shape,
)
    requires
        seq.len() >= 2,
        preserved(held, after),
        adds_only_compositions(before, seq, held),
        forall|i: usize| #[trigger] after.contains_key(i) && !held.contains_key(i) ==> i == index,
        shapes(seq).contains(tree),
        denotes(after, index, tree),
    ensures
        adds_only_compositions(before, seq, after),
{
    assert forall|i: usize| #[trigger]
        after.contains_key(i) && !before.contains_key(i) implies composes_part(after, seq, i) by {
        if held.contains_key(i) {
            lemma_composes_part_grows(held, after, seq, i);
        } else {
            assert(seq.subrange(0, seq.len() as int) =~= seq);
            assert(shapes(seq.subrange(0, seq.len() as int)).contains(tree));
        }
    }
}

/// Each pairing of a left tree with a right tree is among the pairings.
pub proof fn lemma_pairings_contains(lefts: Seq<Shape>, rights: Seq<Shape>, i: int, j: int)
    requires
        0 <= i < lefts.len(),
        0 <= j < rights.len(),
    ensures
        pairings(lefts, rights).contains(Shape::Pair(Box::new(lefts[i]), Box::new(rights[j]))),
    decreases lefts.len(),
{
    let tree = Shape::Pair(Box::new(lefts[i]), Box::new(rights[j]));
    let earlier = pairings(lefts.drop_last(), rights);
    let row = pair_row(lefts.last(), rights);
    if i == lefts.len() - 1 {
        assert(row[j] == tree);
        assert((earlier + row)[earlier.len() + j] == tree);
    } else {
        lemma_pairings_contains(lefts.drop_last(), rights, i, j);
        let k = choose|k: int| 0 <= k < earlier.len() && earlier[k] == tree;
        assert((earlier + row)[k] == tree);
    }
}

/// The compositions with one of the first `cuts` outermost cuts are among
/// those with one of the first `more`.
pub proof fn lemma_shapes_of_cuts_contains(seq: Seq<usize>, cuts: nat, more: nat, tree: Shape)
    requires
        cuts <= more < seq.len(),
        shapes_of_cuts(seq, cuts).contains(tree),
    ensures
        shapes_of_cuts(seq, more).contains(tree),
    decreases more,
{
    if cuts < more {
        lemma_shapes_of_cuts_contains(seq, cuts, (more - 1) as nat, tree);
        let earlier = shapes_of_cuts(seq, (more - 1) as nat);
        let k = choose|k: int| 0 <= k < earlier.len() && earlier[k] == tree;
        let row = pairings(shapes(seq.take(more as int)), shapes(seq.skip(more as int)));
        assert((earlier + row)[k] == tree);
    }
}

/// A composition of the part before a cut, paired with a composition of the
/// part after it, is a composition of the whole.
pub proof fn lemma_shapes_contains_pairing(seq: Seq<usize>, cut: int, i: int, j: int)
    requires
        1 <= cut < seq.len(),
        0 <= i < shapes(seq.take(cut)).len(),
        0 <= j < shapes(seq.skip(cut)).len(),
    ensures
        shapes(seq).contains(
            Shape::Pair(
                Box::new(shapes(seq.take(cut))[i]),
                Box::new(shapes(seq.skip(cut))[j]),
            ),
        ),
{
    let lefts = shapes(seq.take(cut));
    let rights = shapes(seq.skip(cut));
    let tree = Shape::Pair(Box::new(lefts[i]), Box::new(rights[j]));
    lemma_pairings_contains(lefts, rights, i, j);
    let earlier = shapes_of_cuts(seq, (cut - 1) as nat);
    let row = pairings(lefts, rights);
    let k = choose|k: int| 0 <= k < row.len() && row[k] == tree;
    assert((earlier + row)[earlier.len() + k] == tree);
    assert(shapes_of_cuts(seq, cut as nat).contains(tree));
    lemma_shapes_of_cuts_contains(seq, cut as nat, (seq.len() - 1) as nat, tree);
}

/// Whether some reference stands for `tree`.
pub open spec fn has_root(links: Map<usize, (usize, usize)>, tree: Shape) -> bool {
    exists|root: usize| denotes(links, root, tree)
}

/// Whether each tree of `trees` has a reference that stands for it.
pub open spec fn all_have_roots(links: Map<usize, (usize, usize)>, trees: Seq<Shape>) -> bool {
    forall|k: int| 0 <= k < trees.len() ==> has_root(links, #[trigger] trees[k])
}

/// Where every composition of `seq` has a reference, so has every
/// composition of every stretch of `seq`.
pub proof fn lemma_stretch_has_root(
    links: Map<usize, (usize, usize)>,
    seq: Seq<usize>,
    lo: int,
    hi: int,
    tree: Shape,
)
    requires
        0 <= lo < hi <= seq.len(),
        all_have_roots(links, shapes(seq)),
        shapes(seq.subrange(lo, hi)).contains(tree),
    ensures
        has_root(links, tree),
    decreases seq.len(),
{
    if hi < seq.len() {
        let before = seq.take(hi);
        let after = seq.skip(hi);
        lemma_shapes_len(after);
        lemma_catalan_positive((after.len() - 1) as nat);
        assert forall|k: int| 0 <= k < shapes(before).len() implies has_root(
            links,
            #[trigger] shapes(before)[k],
        ) by {
            lemma_shapes_contains_pairing(seq, hi, k, 0);
            let whole = Shape::Pair(Box::new(shapes(before)[k]), Box::new(shapes(after)[0]));
            let at = choose|at: int| 0 <= at < shapes(seq).len() && shapes(seq)[at] == whole;
            let root = choose|root: usize| denotes(links, root, shapes(seq)[at]);
            assert(denotes(links, links[root].0, shapes(before)[k]));
        }
        assert(before.subrange(lo, hi) =~= seq.subrange(lo, hi));
        lemma_stretch_has_root(links, before, lo, hi, tree);
    } else if lo > 0 {
        let before = seq.take(lo);
        let after = seq.skip(lo);
        lemma_shapes_len(before);
        lemma_catalan_positive((before.len() - 1) as nat);
        assert(after =~= seq.subrange(lo, hi));
        let k = choose|k: int| 0 <= k < shapes(after).len() && shapes(after)[k] == tree;
        lemma_shapes_contains_pairing(seq, lo, 0, k);
        let whole = Shape::Pair(Box::new(shapes(before)[0]), Box::new(tree));
        let at = choose|at: int| 0 <= at < shapes(seq).len() && shapes(seq)[at] == whole;
        let root = choose|root: usize| denotes(links, root, shapes(seq)[at]);
        assert(denotes(links, links[root].1, tree));
    } else {
        assert(seq.subrange(lo, hi) =~= seq);
        let k = choose|k: int| 0 <= k < shapes(seq).len() && shapes(seq)[k] == tree;
        let root = choose|root: usize| denotes(links, root, shapes(seq)[k]);
        assert(denotes(links, root, tree));
    }
}

/// Every composition of two or more references is a pair.
pub proof fn lemma_shapes_are_pairs(seq: Seq<usize>, tree: Shape)
    requires
        seq.len() >= 2,
        shapes(seq).contains(tree),
    ensures
        tree is Pair,
{
    lemma_shapes_of_cuts_are_pairs(seq, (seq.len() - 1) as nat, tree);
}

/// Every composition with an outermost cut is a pair.
pub proof fn lemma_shapes_of_cuts_are_pairs(seq: Seq<usize>, cuts: nat, tree: Shape)
    requires
        shapes_of_cuts(seq, cuts).contains(tree),
    ensures
        tree is Pair,
    decreases cuts,
{
    if cuts == 0 || cuts >= seq.len() {
    } else {
        let earlier = shapes_of_cuts(seq, (cuts - 1) as nat);
        let row = pairings(shapes(seq.take(cuts as int)), shapes(seq.skip(cuts as int)));
        let k = choose|k: int| 0 <= k < (earlier + row).len() && (earlier + row)[k] == tree;
        if k < earlier.len() {
            assert(earlier[k] == tree);
            lemma_shapes_of_cuts_are_pairs(seq, (cuts - 1) as nat, tree);
        } else {
            assert(row[k - earlier.len()] == tree);
            lemma_pairings_are_pairs(
                shapes(seq.take(cuts as int)),
                shapes(seq.skip(cuts as int)),
                tree,
            );
        }
    }
}

/// Every pairing is a pair.
pub proof fn lemma_pairings_are_pairs(lefts: Seq<Shape>, rights: Seq<Shape>, tree: Shape)
    requires
        pairings(lefts, rights).contains(tree),
    ensures
        tree is Pair,
    decreases lefts.len(),
{
    if lefts.len() > 0 {
        let earlier = pairings(lefts.drop_last(), rights);
        let row = pair_row(lefts.last(), rights);
        let k = choose|k: int| 0 <= k < (earlier + row).len() && (earlier + row)[k] == tree;
        if k < earlier.len() {
            assert(earlier[k] == tree);
            lemma_pairings_are_pairs(lefts.drop_last(), rights, tree);
        } else {
            assert(row[k - earlier.len()] == tree);
        }
    }
}

/// Each pairing pairs one of the left trees with one of the right trees.
pub proof fn lemma_pairings_member(lefts: Seq<Shape>, rights: Seq<Shape>, tree: Shape) -> (at: (
    int,
    int,
))
    requires
        pairings(lefts, rights).contains(tree),
    ensures
        0 <= at.0 < lefts.len(),
        0 <= at.1 < rights.len(),
        tree == Shape::Pair(Box::new(lefts[at.0]), Box::new(rights[at.1])),
    decreases lefts.len(),
{
    let earlier = pairings(lefts.drop_last(), rights);
    let row = pair_row(lefts.last(), rights);
    let k = choose|k: int| 0 <= k < (earlier + row).len() && (earlier + row)[k] == tree;
    if k < earlier.len() {
        assert(earlier[k] == tree);
        lemma_pairings_member(lefts.drop_last(), rights, tree)
    } else {
        assert(row[k - earlier.len()] == tree);
        (lefts.len() - 1, k - earlier.len())
    }
}

/// The leaves of every composition of `seq` are `seq`, in its order.
pub proof fn lemma_shapes_leaves(seq: Seq<usize>, tree: Shape)
    requires
        shapes(seq).contains(tree),
    ensures
        leaves(tree) == seq,
    decreases seq.len(), seq.len() + 1,
{
    if seq.len() == 1 {
        assert(shapes(seq)[0] == tree);
        assert(leaves(tree) =~= seq);
    } else if seq.len() >= 2 {
        lemma_shapes_of_cuts_leaves(seq, (seq.len() - 1) as nat, tree);
    }
}

/// The leaves of every composition of `seq` with an outermost cut are `seq`,
/// in its order.
pub proof fn lemma_shapes_of_cuts_leaves(seq: Seq<usize>, cuts: nat, tree: Shape)
    requires
        shapes_of_cuts(seq, cuts).contains(tree),
    ensures
        leaves(tree) == seq,
    decreases seq.len(), cuts,
{
    if cuts == 0 || cuts >= seq.len() {
    } else {
        let before = seq.take(cuts as int);
        let after = seq.skip(cuts as int);
        let earlier = shapes_of_cuts(seq, (cuts - 1) as nat);
        let row = pairings(shapes(before), shapes(after));
        let k = choose|k: int| 0 <= k < (earlier + row).len() && (earlier + row)[k] == tree;
        if k < earlier.len() {
            assert(earlier[k] == tree);
            lemma_shapes_of_cuts_leaves(seq, (cuts - 1) as nat, tree);
        } else {
            assert(row[k - earlier.len()] == tree);
            let (i, j) = lemma_pairings_member(shapes(before), shapes(after), tree);
            lemma_shapes_leaves(before, shapes(before)[i]);
            lemma_shapes_leaves(after, shapes(after)[j]);
            assert(before + after =~= seq);
        }
    }
}

/// How many leaves the left tree of a composition has: where its outermost
/// cut lies. A bare reference has none.
pub open spec fn cut_of(shape: Shape) -> nat {
    match shape {
        Shape::Leaf(_) => 0,
        Shape::Pair(left, _) => leaves(*left).len(),
    }
}

/// The compositions with one of the first `cuts` outermost cuts have their
/// cut there.
pub proof fn lemma_shapes_of_cuts_cut(seq: Seq<usize>, cuts: nat, tree: Shape)
    requires
        shapes_of_cuts(seq, cuts).contains(tree),
    ensures
        1 <= cut_of(tree) <= cuts,
        cuts < seq.len(),
    decreases cuts,
{
    if cuts == 0 || cuts >= seq.len() {
    } else {
        let before = seq.take(cuts as int);
        let after = seq.skip(cuts as int);
        let earlier = shapes_of_cuts(seq, (cuts - 1) as nat);
        let row = pairings(shapes(before), shapes(after));
        let k = choose|k: int| 0 <= k < (earlier + row).len() && (earlier + row)[k] == tree;
        if k < earlier.len() {
            assert(earlier[k] == tree);
            lemma_shapes_of_cuts_cut(seq, (cuts - 1) as nat, tree);
        } else {
            assert(row[k - earlier.len()] == tree);
            let (i, j) = lemma_pairings_member(shapes(before), shapes(after), tree);
            lemma_shapes_leaves(before, shapes(before)[i]);
        }
    }
}

/// Pairings of different left trees with different right trees are
/// different.
pub proof fn lemma_pairings_differ(lefts: Seq<Shape>, rights: Seq<Shape>)
    requires
        lefts.no_duplicates(),
        rights.no_duplicates(),
    ensures
        pairings(lefts, rights).no_duplicates(),
    decreases lefts.len(),
{
    if lefts.len() > 0 {
        let earlier = pairings(lefts.drop_last(), rights);
        let row = pair_row(lefts.last(), rights);
        lemma_pairings_differ(lefts.drop_last(), rights);
        assert forall|p: int, q: int|
            0 <= p < (earlier + row).len() && 0 <= q < (earlier + row).len() && p != q implies (
        earlier + row)[p] != (earlier + row)[q] by {
            if p < earlier.len() && q >= earlier.len() {
                let (i, j) = lemma_pairings_member(lefts.drop_last(), rights, earlier[p]);
                assert(row[q - earlier.len()] == (earlier + row)[q]);
                assert(lefts[i] != lefts[lefts.len() - 1]);
            } else if q < earlier.len() && p >= earlier.len() {
                let (i, j) = lemma_pairings_member(lefts.drop_last(), rights, earlier[q]);
                assert(row[p - earlier.len()] == (earlier + row)[p]);
                assert(lefts[i] != lefts[lefts.len() - 1]);
            } else if p >= earlier.len() {
                assert(row[p - earlier.len()] == (earlier + row)[p]);
                assert(row[q - earlier.len()] == (earlier + row)[q]);
                assert(rights[p - earlier.len()] != rights[q - earlier.len()]);
            }
        }
    }
}

/// No composition of a sequence comes twice.
pub proof fn lemma_shapes_differ(seq: Seq<usize>)
    ensures
        shapes(seq).no_duplicates(),
    decreases seq.len(), seq.len() + 1,
{
    if seq.len() >= 2 {
        lemma_shapes_of_cuts_differ(seq, (seq.len() - 1) as nat);
    }
}

/// No composition with one of the first `cuts` outermost cuts comes twice.
pub proof fn lemma_shapes_of_cuts_differ(seq: Seq<usize>, cuts: nat)
    ensures
        shapes_of_cuts(seq, cuts).no_duplicates(),
    decreases seq.len(), cuts,
{
    if cuts == 0 || cuts >= seq.len() {
    } else {
        let before = seq.take(cuts as int);
        let after = seq.skip(cuts as int);
        let earlier = shapes_of_cuts(seq, (cuts - 1) as nat);
        let row = pairings(shapes(before), shapes(after));
        lemma_shapes_of_cuts_differ(seq, (cuts - 1) as nat);
        lemma_shapes_differ(before);
        lemma_shapes_differ(after);
        lemma_pairings_differ(shapes(before), shapes(after));
        assert forall|p: int, q: int|
            0 <= p < (earlier + row).len() && 0 <= q < (earlier + row).len() && p != q implies (
        earlier + row)[p] != (earlier + row)[q] by {
            if p < earlier.len() && q >= earlier.len() {
                lemma_cut_apart(seq, cuts, earlier[p], row[q - earlier.len()]);
            } else if q < earlier.len() && p >= earlier.len() {
                lemma_cut_apart(seq, cuts, earlier[q], row[p - earlier.len()]);
            }
        }
    }
}

/// A composition with an earlier outermost cut differs from every one with
/// the cut after `cuts` references.
proof fn lemma_cut_apart(seq: Seq<usize>, cuts: nat, earlier: Shape, at_cut: Shape)
    requires
        0 < cuts < seq.len(),
        shapes_of_cuts(seq, (cuts - 1) as nat).contains(earlier),
        pairings(shapes(seq.take(cuts as int)), shapes(seq.skip(cuts as int))).contains(at_cut),
    ensures
        earlier != at_cut,
{
    let before = seq.take(cuts as int);
    let after = seq.skip(cuts as int);
    lemma_shapes_of_cuts_cut(seq, (cuts - 1) as nat, earlier);
    let (i, j) = lemma_pairings_member(shapes(before), shapes(after), at_cut);
    lemma_shapes_leaves(before, shapes(before)[i]);
}

/// There are as many pairings as the two lengths multiply to.
pub proof fn lemma_pairings_len(lefts: Seq<Shape>, rights: Seq<Shape>)
    ensures
        pairings(lefts, rights).len() == lefts.len() * rights.len(),
    decreases lefts.len(),
{
    if lefts.len() > 0 {
        lemma_pairings_len(lefts.drop_last(), rights);
        assert((lefts.len() - 1) * rights.len() + rights.len() == lefts.len() * rights.len())
            by (nonlinear_arith);
    }
}

/// Catalan count: a sequence of `n >= 1` references has `C(n - 1)`
/// compositions.
pub proof fn lemma_shapes_len(seq: Seq<usize>)
    requires
        seq.len() >= 1,
    ensures
        shapes(seq).len() == catalan_number((seq.len() - 1) as nat),
    decreases seq.len(), seq.len() + 1,
{
    if seq.len() >= 2 {
        lemma_shapes_of_cuts_len(seq, (seq.len() - 1) as nat);
    }
}

/// The compositions with one of the first `cuts` outermost cuts are as many
/// as the first `cuts` terms of the Catalan convolution sum to.
pub proof fn lemma_shapes_of_cuts_len(seq: Seq<usize>, cuts: nat)
    requires
        seq.len() >= 2,
        cuts < seq.len(),
    ensures
        shapes_of_cuts(seq, cuts).len() == catalan_convolution((seq.len() - 2) as nat, cuts),
    decreases seq.len(), cuts,
{
    if cuts > 0 {
        let before = seq.take(cuts as int);
        let after = seq.skip(cuts as int);
        lemma_shapes_of_cuts_len(seq, (cuts - 1) as nat);
        lemma_shapes_len(before);
        lemma_shapes_len(after);
        lemma_pairings_len(shapes(before), shapes(after));
    }
}

} // verus!

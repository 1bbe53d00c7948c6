//! The variant enumeration: every binary composition of a sequence of
//! references, each materialised as a content-addressed link of the store.

use crate::catalan::{
    catalan_number, checked_catalan, lemma_catalan_rising, CATALAN_TABLE_LEN,
};
use crate::link::is_addressable;
use crate::shape::{
    adds_only_compositions, all_denote, all_fit, all_stored, denotes, fits, has_root, joins_parts,
    lemma_adds_one_composition, lemma_all_fit_grows, lemma_fits_accepted,
    lemma_adds_only_compositions_later, lemma_all_denote_grows, lemma_denotes_grows,
    lemma_denotes_unique, lemma_joins_parts_found, lemma_joins_parts_of_part,
    lemma_shapes_are_pairs, lemma_shapes_contains_pairing, lemma_shapes_len,
    lemma_stretch_has_root, pair_row, pairings, shapes, shapes_of_cuts, Shape,
};
use crate::store::{
    get_or_create_outcome, holds_pair, lemma_get_or_create_keeps_unique, preserved, unique_pairs,
    LinkStore, StoreError,
};
use vstd::prelude::*;

verus! {

/// Why an enumeration stopped.
#[derive(Clone, Copy, PartialEq, Eq, Debug, Structural)]
pub enum EnumerationError {
    /// No buffer can be sized for a sequence of this length.
    CapacityExceeded(usize),
    /// The store refused to return or create the link from `source` to
    /// `target`.
    CreationRejected { source: usize, target: usize, cause: StoreError },
}

/// Whether a buffer for the variants of a sequence of `len` references can
/// be sized: the table has the entry, and the entry is a possible length.
pub open spec fn sizable(len: nat) -> bool {
    &&& 1 <= len <= CATALAN_TABLE_LEN
    &&& catalan_number((len - 1) as nat) <= usize::MAX
}

/// Whether every reference of `seq` is addressable.
pub open spec fn all_addressable(seq: Seq<usize>) -> bool {
    forall|i: int| 0 <= i < seq.len() ==> is_addressable(#[trigger] seq[i])
}

/// What one composition of `source` with `target` hands on to the
/// enumeration, given what the store answered.
pub open spec fn creation_result(
    source: usize,
    target: usize,
    created: Result<usize, StoreError>,
) -> Result<usize, EnumerationError> {
    match created {
        Ok(index) => Ok(index),
        Err(cause) => Err(EnumerationError::CreationRejected { source, target, cause }),
    }
}

/// What an enumeration of `seq` may return and do to a store that held
/// `before`.
///
/// - Nothing is removed or changed.
/// - A sequence of three or more references that is not sizable is refused
///   before the store is touched, and no other sequence is refused for its
///   length.
/// - A single reference is returned as it is, with the store untouched.
/// - Two references are one get-or-create.
/// - A success has as many roots as there are compositions, which is a
///   Catalan number. Each root can stand for the composition at its place,
///   where a wildcard in the sequence accepts every reference; the roots of
///   two or more references are stored links.
///
/// Between addressable references, moreover:
///
/// - the roots of a success are addressable, and each stands for the
///   composition at its place;
/// - a refusal names two references that stand for compositions of
///   neighbouring stretches of the sequence and that no link connects;
/// - every link that was added stands for a composition of some stretch of
///   the sequence;
/// - a store without duplicate pairs stays so.
pub open spec fn enumeration_outcome(
    before: Map<usize, (usize, usize)>,
    seq: Seq<usize>,
    result: Result<Vec<usize>, EnumerationError>,
    after: Map<usize, (usize, usize)>,
) -> bool {
    &&& preserved(before, after)
    &&& seq.len() >= 3 && !sizable(seq.len()) ==> after == before && result == Err::<
        Vec<usize>,
        EnumerationError,
    >(EnumerationError::CapacityExceeded(seq.len() as usize))
    &&& seq.len() == 1 ==> after == before && result is Ok && result->Ok_0@ == seq
    &&& seq.len() == 2 ==> match result {
        Ok(roots) => roots@.len() == 1 && get_or_create_outcome(
            before,
            seq[0],
            seq[1],
            Ok(roots@[0]),
            after,
        ),
        Err(EnumerationError::CreationRejected { source, target, cause }) => {
            &&& source == seq[0]
            &&& target == seq[1]
            &&& get_or_create_outcome(before, source, target, Err(cause), after)
        },
        Err(EnumerationError::CapacityExceeded(_)) => false,
    }
    &&& match result {
        Ok(roots) => {
            &&& roots@.len() == shapes(seq).len()
            &&& roots@.len() == catalan_number((seq.len() - 1) as nat)
            &&& all_fit(after, roots@, shapes(seq))
            &&& seq.len() >= 2 ==> all_stored(after, roots@)
            &&& all_addressable(seq) ==> all_addressable(roots@) && all_denote(
                after,
                roots@,
                shapes(seq),
            )
        },
        Err(EnumerationError::CapacityExceeded(_)) => seq.len() >= 3 && !sizable(seq.len()),
        Err(EnumerationError::CreationRejected { source, target, .. }) => {
            &&& seq.len() >= 2
            &&& all_addressable(seq) ==> {
                &&& joins_parts(after, seq, source, target)
                &&& !holds_pair(after, source, target)
            }
        },
    }
    &&& all_addressable(seq) ==> adds_only_compositions(before, seq, after)
    &&& unique_pairs(before) && all_addressable(seq) ==> unique_pairs(after)
}

/// The buffer length for the variants of a sequence of `len` references.
pub fn variant_capacity(len: usize) -> (r: Result<usize, EnumerationError>)
    requires
        len >= 1,
    ensures
        r == (if sizable(len as nat) {
            Ok::<usize, EnumerationError>(catalan_number((len - 1) as nat) as usize)
        } else {
            Err(EnumerationError::CapacityExceeded(len))
        }),
{
    match checked_catalan(len - 1) {
        Ok(entry) => {
            if entry <= usize::MAX as u64 {
                Ok(entry as usize)
            } else {
                Err(EnumerationError::CapacityExceeded(len))
            }
        },
        Err(_) => Err(EnumerationError::CapacityExceeded(len)),
    }
}

/// Hands the store's answer to one composition on to the enumeration: the
/// index as it is, a refusal together with the pair it was refused for.
pub fn creation_outcome(source: usize, target: usize, created: Result<usize, StoreError>) -> (r:
    Result<usize, EnumerationError>)
    ensures
        r == creation_result(source, target, created),
{
    match created {
        Ok(index) => Ok(index),
        Err(cause) => Err(EnumerationError::CreationRejected { source, target, cause }),
    }
}

/// Every composition of `seq`, each as a link of `store`, in the order of
/// enumeration.
pub fn all_seq_variants(store: &mut LinkStore, seq: &[usize]) -> (r: Result<
    Vec<usize>,
    EnumerationError,
>)
    requires
        seq@.len() >= 1,
    ensures
        enumeration_outcome(old(store)@, seq@, r, final(store)@),
    decreases seq@.len(), 1nat,
{
    proof {
        lemma_shapes_len(seq@);
        lemma_shapes_of_two(seq@);
    }
    if seq.len() == 1 {
        let single = seq[0];
        let roots = vec![single];
        assert(roots@ =~= seq@);
        assert(fits(store@, roots@[0], shapes(seq@)[0]));
        Ok(roots)
    } else if seq.len() == 2 {
        let from = seq[0];
        let to = seq[1];
        let created = store.get_or_create(from, to);
        proof {
            if all_addressable(seq@) {
                assert(is_addressable(seq@[0]) && is_addressable(seq@[1]));
                if created is Ok && unique_pairs(old(store)@) {
                    lemma_get_or_create_keeps_unique(old(store)@, from, to, created, store@);
                }
                assert(shapes(seq@.subrange(0, 1)) == seq![Shape::Leaf(from)]);
                assert(shapes(seq@.subrange(1, 2)) == seq![Shape::Leaf(to)]);
                assert(shapes(seq@.subrange(0, 1))[0] == Shape::Leaf(from));
                assert(shapes(seq@.subrange(1, 2))[0] == Shape::Leaf(to));
                lemma_joins_parts_found(
                    store@,
                    seq@,
                    0,
                    1,
                    2,
                    Shape::Leaf(from),
                    Shape::Leaf(to),
                    from,
                    to,
                );
            }
        }
        match creation_outcome(from, to, created) {
            Ok(index) => {
                let roots = vec![index];
                proof {
                    assert(fits(store@, store@[index].0, Shape::Leaf(from)));
                    assert(fits(store@, store@[index].1, Shape::Leaf(to)));
                    assert(fits(store@, roots@[0], shapes(seq@)[0]));
                    if all_addressable(seq@) {
                        let left = Shape::Leaf(seq@[0]);
                        let right = Shape::Leaf(seq@[1]);
                        let tree = Shape::Pair(Box::new(left), Box::new(right));
                        assert(denotes(store@, store@[index].0, left));
                        assert(denotes(store@, store@[index].1, right));
                        assert(denotes(store@, index, tree));
                        assert(shapes(seq@)[0] == tree);
                        lemma_adds_one_composition(
                            old(store)@,
                            old(store)@,
                            store@,
                            seq@,
                            index,
                            tree,
                        );
                    }
                }
                Ok(roots)
            },
            Err(e) => Err(e),
        }
    } else {
        spec_all_variants(store, seq)
    }
}

/// Every composition of a sequence of three or more references: for each cut
/// of the sequence, every composition of the part before it is composed with
/// every composition of the part after it.
pub fn spec_all_variants(store: &mut LinkStore, seq: &[usize]) -> (r: Result<
    Vec<usize>,
    EnumerationError,
>)
    requires
        seq@.len() > 2,
    ensures
        enumeration_outcome(old(store)@, seq@, r, final(store)@),
    decreases seq@.len(), 0nat,
{
    let capacity = match variant_capacity(seq.len()) {
        Ok(capacity) => capacity,
        Err(e) => {
            return Err(e);
        },
    };
    let ghost addressable = all_addressable(seq@);
    let ghost unique = unique_pairs(old(store)@) && addressable;
    let ghost mut trees: Seq<Shape> = Seq::empty();
    let mut variants: Vec<usize> = Vec::with_capacity(capacity);
    let mut splitter: usize = 1;
    while splitter < seq.len()
        invariant
            seq@.len() > 2,
            sizable(seq@.len()),
            1 <= splitter <= seq@.len(),
            addressable == all_addressable(seq@),
            unique == (unique_pairs(old(store)@) && addressable),
            preserved(old(store)@, store@),
            unique ==> unique_pairs(store@),
            trees == shapes_of_cuts(seq@, (splitter - 1) as nat),
            variants@.len() == trees.len(),
            all_fit(store@, variants@, trees),
            all_stored(store@, variants@),
            addressable ==> all_addressable(variants@) && all_denote(store@, variants@, trees),
            addressable ==> adds_only_compositions(old(store)@, seq@, store@),
        decreases seq@.len() - splitter,
    {
        let (left_seq, right_seq) = seq.split_at(splitter);
        proof {
            assert(left_seq@ == seq@.take(splitter as int));
            assert(right_seq@ == seq@.skip(splitter as int));
            lemma_sizable_shorter(left_seq@.len(), seq@.len());
            lemma_sizable_shorter(right_seq@.len(), seq@.len());
        }
        let ghost entry = store@;
        let left_variants = all_seq_variants(store, left_seq);
        let ghost middle = store@;
        proof {
            assert(seq@.take(splitter as int) == seq@.subrange(0, splitter as int));
            if addressable {
                lemma_adds_only_compositions_later(
                    old(store)@,
                    entry,
                    middle,
                    seq@,
                    0,
                    splitter as int,
                );
            }
        }
        let left = match left_variants {
            Ok(left) => left,
            Err(e) => {
                proof {
                    if addressable {
                        lemma_refusal_of_part(store@, seq@, 0, splitter as int, e);
                    }
                }
                return Err(e);
            },
        };
        let right_variants = all_seq_variants(store, right_seq);
        proof {
            assert(seq@.skip(splitter as int) == seq@.subrange(
                splitter as int,
                seq@.len() as int,
            ));
            if addressable {
                lemma_adds_only_compositions_later(
                    old(store)@,
                    middle,
                    store@,
                    seq@,
                    splitter as int,
                    seq@.len() as int,
                );
            }
        }
        let right = match right_variants {
            Ok(right) => right,
            Err(e) => {
                proof {
                    if addressable {
                        lemma_refusal_of_part(
                            store@,
                            seq@,
                            splitter as int,
                            seq@.len() as int,
                            e,
                        );
                    }
                }
                return Err(e);
            },
        };
        let ghost lefts = shapes(left_seq@);
        let ghost rights = shapes(right_seq@);
        let ghost base = trees;
        proof {
            lemma_all_fit_grows(middle, store@, left@, lefts);
            lemma_all_fit_grows(entry, store@, variants@, trees);
            if addressable {
                lemma_all_denote_grows(middle, store@, left@, lefts);
                lemma_all_denote_grows(entry, store@, variants@, trees);
            }
            assert(lefts.take(0) =~= Seq::<Shape>::empty());
            assert(trees =~= base + pairings(lefts.take(0), rights));
        }
        let mut i: usize = 0;
        while i < left.len()
            invariant
                0 <= i <= left@.len(),
                seq@.len() > 2,
                sizable(seq@.len()),
                addressable == all_addressable(seq@),
                unique == (unique_pairs(old(store)@) && addressable),
                left@.len() == lefts.len(),
                right@.len() == rights.len(),
                preserved(old(store)@, store@),
                unique ==> unique_pairs(store@),
                trees == base + pairings(lefts.take(i as int), rights),
                variants@.len() == trees.len(),
                all_fit(store@, variants@, trees),
                all_stored(store@, variants@),
                all_fit(store@, left@, lefts),
                all_fit(store@, right@, rights),
                addressable ==> {
                    &&& all_addressable(variants@)
                    &&& all_denote(store@, variants@, trees)
                    &&& all_addressable(left@)
                    &&& all_denote(store@, left@, lefts)
                    &&& all_addressable(right@)
                    &&& all_denote(store@, right@, rights)
                    &&& adds_only_compositions(old(store)@, seq@, store@)
                },
                1 <= splitter < seq@.len(),
                lefts == shapes(seq@.take(splitter as int)),
                rights == shapes(seq@.skip(splitter as int)),
            decreases left@.len() - i,
        {
            let from = left[i];
            let ghost row_base = trees;
            proof {
                assert(rights.take(0) =~= Seq::<Shape>::empty());
                assert(trees =~= row_base + pair_row(lefts[i as int], rights.take(0)));
            }
            let mut j: usize = 0;
            while j < right.len()
                invariant
                    0 <= i < left@.len(),
                    0 <= j <= right@.len(),
                    from == left@[i as int],
                    seq@.len() > 2,
                    sizable(seq@.len()),
                    addressable == all_addressable(seq@),
                unique == (unique_pairs(old(store)@) && addressable),
                    left@.len() == lefts.len(),
                    right@.len() == rights.len(),
                    preserved(old(store)@, store@),
                    unique ==> unique_pairs(store@),
                    trees == row_base + pair_row(lefts[i as int], rights.take(j as int)),
                    variants@.len() == trees.len(),
                    all_fit(store@, variants@, trees),
                    all_stored(store@, variants@),
                    all_fit(store@, left@, lefts),
                    all_fit(store@, right@, rights),
                    addressable ==> {
                        &&& all_addressable(variants@)
                        &&& all_denote(store@, variants@, trees)
                        &&& all_addressable(left@)
                        &&& all_denote(store@, left@, lefts)
                        &&& all_addressable(right@)
                        &&& all_denote(store@, right@, rights)
                        &&& adds_only_compositions(old(store)@, seq@, store@)
                    },
                    1 <= splitter < seq@.len(),
                    lefts == shapes(seq@.take(splitter as int)),
                    rights == shapes(seq@.skip(splitter as int)),
                decreases right@.len() - j,
            {
                let to = right[j];
                let ghost held = store@;
                let ghost roots = variants@;
                let created = store.get_or_create(from, to);
                proof {
                    if addressable {
                        assert(is_addressable(left@[i as int]) && is_addressable(right@[j as int]));
                        if unique && created is Ok {
                            lemma_get_or_create_keeps_unique(held, from, to, created, store@);
                        }
                        if created is Err {
                            assert(denotes(store@, left@[i as int], lefts[i as int]));
                            assert(denotes(store@, right@[j as int], rights[j as int]));
                            assert(seq@.take(splitter as int) == seq@.subrange(0, splitter as int));
                            assert(seq@.skip(splitter as int) == seq@.subrange(
                                splitter as int,
                                seq@.len() as int,
                            ));
                            lemma_joins_parts_found(
                                store@,
                                seq@,
                                0,
                                splitter as int,
                                seq@.len() as int,
                                lefts[i as int],
                                rights[j as int],
                                from,
                                to,
                            );
                        }
                    }
                }
                match creation_outcome(from, to, created) {
                    Ok(index) => {
                        variants.push(index);
                    },
                    Err(e) => {
                        return Err(e);
                    },
                }
                proof {
                    let tree = Shape::Pair(Box::new(lefts[i as int]), Box::new(rights[j as int]));
                    let index = created->Ok_0;
                    lemma_pair_row_push(lefts[i as int], rights, j as int);
                    lemma_all_fit_grows(held, store@, roots, trees);
                    lemma_all_fit_grows(held, store@, left@, lefts);
                    lemma_all_fit_grows(held, store@, right@, rights);
                    assert(fits(store@, left@[i as int], lefts[i as int]));
                    assert(fits(store@, right@[j as int], rights[j as int]));
                    lemma_fits_accepted(store@, from, store@[index].0, lefts[i as int]);
                    lemma_fits_accepted(store@, to, store@[index].1, rights[j as int]);
                    assert(fits(store@, index, tree));
                    if addressable {
                        lemma_all_denote_grows(held, store@, roots, trees);
                        lemma_all_denote_grows(held, store@, left@, lefts);
                        lemma_all_denote_grows(held, store@, right@, rights);
                        assert(denotes(store@, left@[i as int], lefts[i as int]));
                        assert(denotes(store@, right@[j as int], rights[j as int]));
                        assert(denotes(store@, created->Ok_0, tree));
                        lemma_shapes_contains_pairing(seq@, splitter as int, i as int, j as int);
                        lemma_adds_one_composition(
                            old(store)@,
                            held,
                            store@,
                            seq@,
                            created->Ok_0,
                            tree,
                        );
                    }
                    trees = trees.push(tree);
                    assert(trees =~= row_base + pair_row(
                        lefts[i as int],
                        rights.take(j as int + 1),
                    ));
                }
                j += 1;
            }
            proof {
                assert(rights.take(right@.len() as int) =~= rights);
                lemma_pairings_take(lefts, rights, i as int);
                assert(trees =~= base + pairings(lefts.take(i as int + 1), rights));
            }
            i += 1;
        }
        proof {
            assert(lefts.take(left@.len() as int) =~= lefts);
        }
        splitter += 1;
    }
    proof {
        lemma_shapes_len(seq@);
    }
    Ok(variants)
}

/// A refusal inside a stretch of `seq` is a refusal inside `seq`.
proof fn lemma_refusal_of_part(
    links: Map<usize, (usize, usize)>,
    seq: Seq<usize>,
    from: int,
    to: int,
    refusal: EnumerationError,
)
    requires
        0 <= from <= to <= seq.len(),
        refusal matches EnumerationError::CreationRejected { source, target, .. } ==> joins_parts(
            links,
            seq.subrange(from, to),
            source,
            target,
        ),
    ensures
        refusal matches EnumerationError::CreationRejected { source, target, .. } ==> joins_parts(
            links,
            seq,
            source,
            target,
        ),
{
    match refusal {
        EnumerationError::CreationRejected { source, target, .. } => {
            lemma_joins_parts_of_part(links, seq, from, to, source, target);
        },
        EnumerationError::CapacityExceeded(_) => {},
    }
}

/// A shorter sequence than a sizable one is sizable.
pub proof fn lemma_sizable_shorter(shorter: nat, len: nat)
    requires
        1 <= shorter <= len,
        sizable(len),
    ensures
        sizable(shorter),
{
    lemma_catalan_rising((shorter - 1) as nat, (len - 1) as nat);
}

/// A sequence of two references has one composition: the pair of the two.
pub proof fn lemma_shapes_of_two(seq: Seq<usize>)
    ensures
        seq.len() == 2 ==> shapes(seq) == seq![
            Shape::Pair(Box::new(Shape::Leaf(seq[0])), Box::new(Shape::Leaf(seq[1]))),
        ],
{
    if seq.len() == 2 {
        let lefts = shapes(seq.take(1));
        let rights = shapes(seq.skip(1));
        assert(lefts == seq![Shape::Leaf(seq[0])]);
        assert(rights == seq![Shape::Leaf(seq[1])]);
        assert(shapes_of_cuts(seq, 0) == Seq::<Shape>::empty());
        assert(pairings(lefts.drop_last(), rights) == Seq::<Shape>::empty());
        assert(shapes_of_cuts(seq, 1) =~= pair_row(lefts.last(), rights));
        assert(shapes(seq) =~= seq![
            Shape::Pair(Box::new(Shape::Leaf(seq[0])), Box::new(Shape::Leaf(seq[1]))),
        ]);
    }
}

/// One tree paired with one tree is one composition.
pub proof fn lemma_pairings_of_one(left: Shape, right: Shape)
    ensures
        pairings(seq![left], seq![right]) == seq![Shape::Pair(Box::new(left), Box::new(right))],
{
    let lefts = seq![left];
    let rights = seq![right];
    assert(pairings(lefts.drop_last(), rights) == Seq::<Shape>::empty());
    assert(pairings(lefts, rights) =~= seq![Shape::Pair(Box::new(left), Box::new(right))]);
}

/// A sequence of three references has two compositions: the first with the
/// pair of the others, then the pair of the first two with the third.
pub proof fn lemma_shapes_of_three(seq: Seq<usize>)
    requires
        seq.len() == 3,
    ensures
        shapes(seq) == seq![
            Shape::Pair(
                Box::new(Shape::Leaf(seq[0])),
                Box::new(
                    Shape::Pair(Box::new(Shape::Leaf(seq[1])), Box::new(Shape::Leaf(seq[2]))),
                ),
            ),
            Shape::Pair(
                Box::new(
                    Shape::Pair(Box::new(Shape::Leaf(seq[0])), Box::new(Shape::Leaf(seq[1]))),
                ),
                Box::new(Shape::Leaf(seq[2])),
            ),
        ],
{
    let a = Shape::Leaf(seq[0]);
    let b = Shape::Leaf(seq[1]);
    let c = Shape::Leaf(seq[2]);
    let ab = Shape::Pair(Box::new(a), Box::new(b));
    let bc = Shape::Pair(Box::new(b), Box::new(c));
    lemma_shapes_of_two(seq.take(2));
    lemma_shapes_of_two(seq.skip(1));
    assert(shapes(seq.take(1)) == seq![a]);
    assert(shapes(seq.skip(2)) == seq![c]);
    assert(shapes(seq.skip(1)) == seq![bc]);
    assert(shapes(seq.take(2)) == seq![ab]);
    lemma_pairings_of_one(a, bc);
    lemma_pairings_of_one(ab, c);
    assert(shapes_of_cuts(seq, 0) == Seq::<Shape>::empty());
    assert(shapes_of_cuts(seq, 1) =~= seq![Shape::Pair(Box::new(a), Box::new(bc))]);
    assert(shapes_of_cuts(seq, 2) =~= seq![
        Shape::Pair(Box::new(a), Box::new(bc)),
        Shape::Pair(Box::new(ab), Box::new(c)),
    ]);
}

/// Structural-sharing reuse: in a store without duplicate pairs, after the
/// compositions of `[a, b, c]` the enumeration of `[a, b]` succeeds, creates
/// no link, and returns the reference that the second composition of the
/// three has as its source.
pub proof fn lemma_pair_is_reused(
    start: Map<usize, (usize, usize)>,
    a: usize,
    b: usize,
    c: usize,
    three: Vec<usize>,
    between: Map<usize, (usize, usize)>,
    two: Result<Vec<usize>, EnumerationError>,
    end: Map<usize, (usize, usize)>,
)
    requires
        unique_pairs(start),
        is_addressable(a),
        is_addressable(b),
        is_addressable(c),
        enumeration_outcome(start, seq![a, b, c], Ok(three), between),
        enumeration_outcome(between, seq![a, b], two, end),
    ensures
        two is Ok,
        two->Ok_0@.len() == 1,
        end == between,
        three@.len() == 2,
        two->Ok_0@[0] == between[three@[1]].0,
{
    let abc = seq![a, b, c];
    let ab = seq![a, b];
    lemma_shapes_of_three(abc);
    lemma_shapes_of_two(ab);
    assert(all_addressable(abc));
    assert(all_addressable(ab));
    let whole = three@[1];
    assert(denotes(between, whole, shapes(abc)[1]));
    let shared = between[whole].0;
    assert(denotes(
        between,
        shared,
        Shape::Pair(Box::new(Shape::Leaf(a)), Box::new(Shape::Leaf(b))),
    ));
    assert(denotes(between, between[shared].0, Shape::Leaf(a)));
    assert(denotes(between, between[shared].1, Shape::Leaf(b)));
    assert(between.contains_key(shared) && between[shared] == (a, b));
    assert(holds_pair(between, a, b));
    assert(ab[0] == a && ab[1] == b);
}

/// Repeating an enumeration: in a store without duplicate pairs, after a
/// successful enumeration of addressable references a second enumeration of
/// the same references succeeds, returns the roots of the first, and adds no
/// link.
pub proof fn lemma_enumeration_repeats(
    start: Map<usize, (usize, usize)>,
    seq: Seq<usize>,
    first: Vec<usize>,
    between: Map<usize, (usize, usize)>,
    second: Result<Vec<usize>, EnumerationError>,
    end: Map<usize, (usize, usize)>,
)
    requires
        seq.len() >= 1,
        unique_pairs(start),
        all_addressable(seq),
        enumeration_outcome(start, seq, Ok(first), between),
        enumeration_outcome(between, seq, second, end),
    ensures
        second is Ok,
        second->Ok_0@ == first@,
        end == between,
{
    let trees = shapes(seq);
    assert forall|k: int| 0 <= k < trees.len() implies has_root(between, #[trigger] trees[k]) by {
        assert(denotes(between, first@[k], trees[k]));
    }
    match second {
        Ok(again) => {
            lemma_all_denote_grows(between, end, first@, trees);
            assert forall|k: int| 0 <= k < first@.len() implies first@[k] == again@[k] by {
                lemma_denotes_unique(end, first@[k], again@[k], trees[k]);
            }
            assert(again@ =~= first@);
        },
        Err(EnumerationError::CapacityExceeded(_)) => {},
        Err(EnumerationError::CreationRejected { source, target, .. }) => {
            let (lo, mid, hi, left, right) = choose|
                lo: int,
                mid: int,
                hi: int,
                left: Shape,
                right: Shape,
            |
                {
                    &&& 0 <= lo < mid < hi <= seq.len()
                    &&& #[trigger] shapes(seq.subrange(lo, mid)).contains(left)
                    &&& #[trigger] shapes(seq.subrange(mid, hi)).contains(right)
                    &&& denotes(end, source, left)
                    &&& denotes(end, target, right)
                };
            let stretch = seq.subrange(lo, hi);
            let tree = Shape::Pair(Box::new(left), Box::new(right));
            assert(stretch.take(mid - lo) =~= seq.subrange(lo, mid));
            assert(stretch.skip(mid - lo) =~= seq.subrange(mid, hi));
            let i = choose|i: int|
                0 <= i < shapes(seq.subrange(lo, mid)).len() && shapes(seq.subrange(lo, mid))[i]
                    == left;
            let j = choose|j: int|
                0 <= j < shapes(seq.subrange(mid, hi)).len() && shapes(seq.subrange(mid, hi))[j]
                    == right;
            lemma_shapes_contains_pairing(stretch, mid - lo, i, j);
            lemma_stretch_has_root(between, seq, lo, hi, tree);
            let root = choose|root: usize| denotes(between, root, tree);
            lemma_denotes_grows(between, end, root, tree);
            lemma_denotes_unique(end, end[root].0, source, left);
            lemma_denotes_unique(end, end[root].1, target, right);
            assert(end.contains_key(root) && end[root] == (source, target));
        },
    }
    assert forall|i: usize| end.contains_key(i) implies between.contains_key(i) by {
        if !between.contains_key(i) {
            let (lo, hi, tree) = choose|lo: int, hi: int, tree: Shape|
                {
                    &&& 0 <= lo
                    &&& lo + 2 <= hi <= seq.len()
                    &&& #[trigger] shapes(seq.subrange(lo, hi)).contains(tree)
                    &&& #[trigger] denotes(end, i, tree)
                };
            lemma_stretch_has_root(between, seq, lo, hi, tree);
            let root = choose|root: usize| denotes(between, root, tree);
            lemma_shapes_are_pairs(seq.subrange(lo, hi), tree);
            lemma_denotes_grows(between, end, root, tree);
            lemma_denotes_unique(end, i, root, tree);
        }
    }
    assert(end =~= between);
}

/// A row grows by one pairing at a time.
pub proof fn lemma_pair_row_push(left: Shape, rights: Seq<Shape>, j: int)
    requires
        0 <= j < rights.len(),
    ensures
        pair_row(left, rights.take(j)).push(Shape::Pair(Box::new(left), Box::new(rights[j])))
            == pair_row(left, rights.take(j + 1)),
{
    assert(pair_row(left, rights.take(j)).push(Shape::Pair(Box::new(left), Box::new(rights[j])))
        =~= pair_row(left, rights.take(j + 1)));
}

/// The pairings grow by one row at a time.
pub proof fn lemma_pairings_take(lefts: Seq<Shape>, rights: Seq<Shape>, i: int)
    requires
        0 <= i < lefts.len(),
    ensures
        pairings(lefts.take(i), rights) + pair_row(lefts[i], rights) == pairings(
            lefts.take(i + 1),
            rights,
        ),
{
    assert(lefts.take(i + 1).drop_last() =~= lefts.take(i));
}

} // verus!

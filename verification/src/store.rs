//! The link store: an in-memory doublets store seen as a finite map from
//! link index to `(source, target)`.

use crate::link::{
    any_ref, is_addressable, is_link_ref, itself_ref, max_link_ref, null_ref, Link, Sentinels,
};
use doublets::{Doublets, DoubletsExt, Error, Links};
use vstd::prelude::*;

verus! {

/// Why the store refused an operation.
#[derive(Clone, Copy, PartialEq, Eq, Debug, Structural)]
pub enum StoreError {
    /// No link has this index.
    NotExists(usize),
    /// Other links still refer to the link.
    HasUsages,
    /// A link with this source and target is already stored.
    AlreadyExists(usize, usize),
    /// The store holds as many links as it can take: the number is its
    /// limit of links, or the end of its range of references.
    LimitReached(usize),
    /// The memory behind the store could not grow.
    AllocFailed,
    /// Any other failure inside the store.
    Other,
}

/// An in-memory doublets store with the default reserved references: a
/// `doublets::unit::Store` over `usize` references in global memory. Nothing
/// of its inside is visible here; what it holds goes by [`store_links`].
#[verifier::external_body]
pub struct LinkStore {
    inner: doublets::unit::Store<usize, doublets::mem::Global<doublets::parts::LinkPart<usize>>>,
}

/// The links that a store holds: index to `(source, target)`.
pub uninterp spec fn store_links(store: LinkStore) -> Map<usize, (usize, usize)>;

impl View for LinkStore {
    type V = Map<usize, (usize, usize)>;

    open spec fn view(&self) -> Map<usize, (usize, usize)> {
        store_links(*self)
    }
}

/// The contents of a store without links.
pub open spec fn no_links() -> Map<usize, (usize, usize)> {
    Map::empty()
}

/// The most links that a store can hold. The store works on the memory that
/// its set-up reserved last, which has room for a header and this many
/// links; it hands out the next index all the same, and then reads outside
/// that memory. So no link is created in a store that holds this many.
pub const LINK_LIMIT: usize = 1_040_383;

/// Whether a store that holds `links` can take one more.
pub open spec fn has_room(links: Map<usize, (usize, usize)>) -> bool {
    links.dom().len() < LINK_LIMIT
}

/// Whether the references of a store are used up: links get rising indices,
/// and the one with the largest link reference is stored.
pub open spec fn is_full(links: Map<usize, (usize, usize)>) -> bool {
    links.contains_key(max_link_ref())
}

/// The one error with which a store that holds `links` refuses to add a
/// link: a store without room is at its limit; of the others, one whose
/// references are used up has no reference left, and any other lacks memory.
pub open spec fn creation_failure(links: Map<usize, (usize, usize)>) -> StoreError {
    if !has_room(links) {
        StoreError::LimitReached(LINK_LIMIT)
    } else if is_full(links) {
        StoreError::LimitReached(max_link_ref())
    } else {
        StoreError::AllocFailed
    }
}

/// Whether `end` is what a search for `pattern` accepts: the wildcard
/// accepts every reference, and any other reference only itself.
pub open spec fn end_matches(pattern: usize, end: usize) -> bool {
    pattern == any_ref() || pattern == end
}

/// Whether every link of `before` is still there, unchanged, in `after`.
pub open spec fn preserved(
    before: Map<usize, (usize, usize)>,
    after: Map<usize, (usize, usize)>,
) -> bool {
    forall|i: usize| #[trigger]
        before.contains_key(i) ==> after.contains_key(i) && after[i] == before[i]
}

/// The link that `links` holds at `index`.
pub open spec fn link_at(links: Map<usize, (usize, usize)>, index: usize) -> Link {
    Link { index, source: links[index].0, target: links[index].1 }
}

/// Whether `listing` gives every link of `links` once, by rising index.
pub open spec fn is_listing(links: Map<usize, (usize, usize)>, listing: Seq<Link>) -> bool {
    &&& forall|k: int|
        0 <= k < listing.len() ==> {
            &&& links.contains_key((#[trigger] listing[k]).index)
            &&& is_link_ref(listing[k].index)
            &&& listing[k] == link_at(links, listing[k].index)
        }
    &&& forall|a: int, b: int|
        0 <= a < b < listing.len() ==> (#[trigger] listing[a]).index < (#[trigger] listing[b]).index
    &&& forall|i: usize|
        links.contains_key(i) ==> exists|k: int|
            0 <= k < listing.len() && (#[trigger] listing[k]).index == i
}

/// Whether some link of `links` connects `source` to `target`.
pub open spec fn holds_pair(links: Map<usize, (usize, usize)>, source: usize, target: usize) -> bool {
    exists|i: usize| #[trigger] links.contains_key(i) && links[i] == (source, target)
}

/// Content addressing: no two links connect the same source to the same
/// target.
pub open spec fn unique_pairs(links: Map<usize, (usize, usize)>) -> bool {
    forall|i: usize, j: usize|
        #[trigger] links.contains_key(i) && #[trigger] links.contains_key(j) && links[i] == links[j]
            ==> i == j
}

/// Whether no link of `links` but the one at `index` connects `source` to
/// `target`.
pub open spec fn pair_is_free(
    links: Map<usize, (usize, usize)>,
    index: usize,
    source: usize,
    target: usize,
) -> bool {
    forall|j: usize| #[trigger] links.contains_key(j) && links[j] == (source, target) ==> j == index
}

/// What one search for a link from `source` to `target` may find among
/// `links`: a stored link whose ends the two accept; and between addressable
/// references it finds a link exactly when one connects them.
pub open spec fn search_outcome(
    links: Map<usize, (usize, usize)>,
    source: usize,
    target: usize,
    found: Option<usize>,
) -> bool {
    &&& found matches Some(i) ==> {
        &&& links.contains_key(i)
        &&& is_link_ref(i)
        &&& end_matches(source, links[i].0)
        &&& end_matches(target, links[i].1)
    }
    &&& is_addressable(source) && is_addressable(target) ==> (found is Some <==> holds_pair(
        links,
        source,
        target,
    ))
}

/// What one get-or-create of `(source, target)` may do to a store that held
/// `before`.
///
/// Nothing is ever removed or changed, and a store without room stays as it
/// is. A successful call names a stored link whose ends `source` and
/// `target` accept, and has added at most that link, from `source` to
/// `target` under a fresh index. A failed call leaves the store as it was
/// and gives the error that goes with what the store held.
///
/// Between addressable references the call returns the link that already
/// connects them, or else adds exactly that one link; it fails only when it
/// would have had to add a link.
pub open spec fn get_or_create_outcome(
    before: Map<usize, (usize, usize)>,
    source: usize,
    target: usize,
    result: Result<usize, StoreError>,
    after: Map<usize, (usize, usize)>,
) -> bool {
    &&& preserved(before, after)
    &&& !has_room(before) ==> after == before
    &&& match result {
        Ok(i) => {
            &&& after.contains_key(i)
            &&& is_link_ref(i)
            &&& end_matches(source, after[i].0)
            &&& end_matches(target, after[i].1)
            &&& after == before || (!before.contains_key(i) && after == before.insert(
                i,
                (source, target),
            ))
        },
        Err(e) => after == before && e == creation_failure(before),
    }
    &&& is_addressable(source) && is_addressable(target) ==> match result {
        Ok(i) => {
            &&& after[i] == (source, target)
            &&& if holds_pair(before, source, target) {
                after == before
            } else {
                !before.contains_key(i) && after == before.insert(i, (source, target))
            }
        },
        Err(_) => !holds_pair(before, source, target),
    }
}

/// `doublets::unit::Store::new` over `doublets::mem::Global::new()`: a store
/// that could be set up holds no link, and setting one up fails only where
/// its memory cannot be had, with `AllocFailed`.
#[verifier::external_body]
fn raw_new() -> (r: Result<LinkStore, StoreError>)
    ensures
        match r {
            Ok(store) => store_links(store) == no_links(),
            Err(e) => e == StoreError::AllocFailed,
        },
{
    match doublets::unit::Store::<usize, _>::new(doublets::mem::Global::new()) {
        Ok(inner) => Ok(LinkStore { inner }),
        Err(Error::NotExists(i)) => Err(StoreError::NotExists(i)),
        Err(Error::HasUsages(_)) => Err(StoreError::HasUsages),
        Err(Error::AlreadyExists(d)) => Err(StoreError::AlreadyExists(d.source, d.target)),
        Err(Error::LimitReached(m)) => Err(StoreError::LimitReached(m)),
        Err(Error::AllocFailed(_)) => Err(StoreError::AllocFailed),
        Err(Error::Other(_)) => Err(StoreError::Other),
    }
}

/// `doublets::Links::constants`: the reserved references of a store made
/// with the default constants, of which this reads three.
#[verifier::external_body]
fn raw_constants(store: &LinkStore) -> (s: Sentinels)
    ensures
        s == (Sentinels { null: null_ref(), any: any_ref(), itself: itself_ref() }),
{
    let constants = store.inner.constants();
    Sentinels { null: constants.null, any: constants.any, itself: constants.itself }
}

/// `doublets::Doublets::exist`: whether a link with this index is stored.
/// Stored links have indices from 1 up to the largest link reference.
#[verifier::external_body]
fn raw_exist(store: &LinkStore, index: usize) -> (b: bool)
    ensures
        b == store_links(*store).contains_key(index),
        b ==> is_link_ref(index),
{
    store.inner.exist(index)
}

/// `doublets::Doublets::get_link`: the stored link with this index, if
/// there is one.
#[verifier::external_body]
fn raw_get_link(store: &LinkStore, index: usize) -> (r: Option<Link>)
    ensures
        match r {
            Some(link) => store_links(*store).contains_key(index) && link == link_at(
                store_links(*store),
                index,
            ),
            None => !store_links(*store).contains_key(index),
        },
{
    match store.inner.get_link(index) {
        Some(link) => Some(Link { index: link.index, source: link.source, target: link.target }),
        None => None,
    }
}

/// `doublets::Doublets::search`: the index of a stored link from `source`
/// to `target`, where the wildcard stands for any end. Between addressable
/// references it finds a link exactly when one connects them. It reads the
/// search trees and changes nothing.
#[verifier::external_body]
fn raw_search(store: &LinkStore, source: usize, target: usize) -> (found: Option<usize>)
    ensures
        search_outcome(store_links(*store), source, target, found),
{
    store.inner.search(source, target)
}

/// `doublets::Doublets::get_or_create`: searches for a link from `source`
/// to `target` and creates one only when the search finds none. A store at
/// its limit is left out: there the creation reads outside the memory of
/// the store.
#[verifier::external_body]
fn raw_get_or_create(store: &mut LinkStore, source: usize, target: usize) -> (r: Result<
    usize,
    StoreError,
>)
    requires
        has_room(store_links(*old(store))),
    ensures
        get_or_create_outcome(
            store_links(*old(store)),
            source,
            target,
            r,
            store_links(*final(store)),
        ),
{
    match store.inner.get_or_create(source, target) {
        Ok(index) => Ok(index),
        Err(Error::NotExists(i)) => Err(StoreError::NotExists(i)),
        Err(Error::HasUsages(_)) => Err(StoreError::HasUsages),
        Err(Error::AlreadyExists(d)) => Err(StoreError::AlreadyExists(d.source, d.target)),
        Err(Error::LimitReached(m)) => Err(StoreError::LimitReached(m)),
        Err(Error::AllocFailed(_)) => Err(StoreError::AllocFailed),
        Err(Error::Other(_)) => Err(StoreError::Other),
    }
}

/// `doublets::Doublets::create_point`: allocates a link under a fresh index
/// and makes it its own source and target. It fails on exhaustion alone, and
/// then leaves the store as it was: with `LimitReached` and the largest link
/// reference exactly when the references are used up, which goes before all
/// else, and with `AllocFailed` when the memory of the store cannot grow. A
/// store at its limit is left out: there the creation reads outside the
/// memory of the store.
#[verifier::external_body]
fn raw_create_point(store: &mut LinkStore) -> (r: Result<usize, StoreError>)
    requires
        has_room(store_links(*old(store))),
    ensures
        match r {
            Ok(i) => {
                &&& !is_full(store_links(*old(store)))
                &&& is_link_ref(i)
                &&& !store_links(*old(store)).contains_key(i)
                &&& store_links(*final(store)) == store_links(*old(store)).insert(i, (i, i))
            },
            Err(e) => {
                &&& store_links(*final(store)) == store_links(*old(store))
                &&& e == creation_failure(store_links(*old(store)))
            },
        },
{
    match store.inner.create_point() {
        Ok(index) => Ok(index),
        Err(Error::NotExists(i)) => Err(StoreError::NotExists(i)),
        Err(Error::HasUsages(_)) => Err(StoreError::HasUsages),
        Err(Error::AlreadyExists(d)) => Err(StoreError::AlreadyExists(d.source, d.target)),
        Err(Error::LimitReached(m)) => Err(StoreError::LimitReached(m)),
        Err(Error::AllocFailed(_)) => Err(StoreError::AllocFailed),
        Err(Error::Other(_)) => Err(StoreError::Other),
    }
}

/// `doublets::Doublets::update`: gives the link at `index` a new source and
/// target, and fails with `NotExists` and no change when no such link is
/// stored. The store finds a link in its search trees by source and target:
/// where two links connect the same pair, taking one out of a tree can take
/// out the other, so such stores and such updates are left out.
#[verifier::external_body]
fn raw_update(store: &mut LinkStore, index: usize, source: usize, target: usize) -> (r: Result<
    usize,
    StoreError,
>)
    requires
        unique_pairs(store_links(*old(store))),
        pair_is_free(store_links(*old(store)), index, source, target),
    ensures
        match r {
            Ok(i) => {
                &&& i == index
                &&& store_links(*old(store)).contains_key(index)
                &&& store_links(*final(store)) == store_links(*old(store)).insert(
                    index,
                    (source, target),
                )
            },
            Err(e) => {
                &&& e == StoreError::NotExists(index)
                &&& !store_links(*old(store)).contains_key(index)
                &&& store_links(*final(store)) == store_links(*old(store))
            },
        },
{
    match store.inner.update(index, source, target) {
        Ok(index) => Ok(index),
        Err(Error::NotExists(i)) => Err(StoreError::NotExists(i)),
        Err(Error::HasUsages(_)) => Err(StoreError::HasUsages),
        Err(Error::AlreadyExists(d)) => Err(StoreError::AlreadyExists(d.source, d.target)),
        Err(Error::LimitReached(m)) => Err(StoreError::LimitReached(m)),
        Err(Error::AllocFailed(_)) => Err(StoreError::AllocFailed),
        Err(Error::Other(_)) => Err(StoreError::Other),
    }
}

/// `doublets::Doublets::count`: how many links are stored.
#[verifier::external_body]
fn raw_count(store: &LinkStore) -> (n: usize)
    ensures
        n == store_links(*store).dom().len(),
{
    store.inner.count()
}

/// `doublets::DoubletsExt::each_iter` with a wildcard source and target:
/// for a wildcard index every stored link, by rising index; for any other
/// index the link stored there, if there is one.
#[verifier::external_body]
fn raw_each(store: &LinkStore, index: usize, source: usize, target: usize) -> (r: Vec<Link>)
    requires
        source == any_ref(),
        target == any_ref(),
    ensures
        index == any_ref() ==> is_listing(store_links(*store), r@),
        index != any_ref() ==> r@ == (if store_links(*store).contains_key(index) {
            seq![link_at(store_links(*store), index)]
        } else {
            Seq::<Link>::empty()
        }),
{
    store.inner.each_iter([index, source, target]).map(
        |link| Link { index: link.index, source: link.source, target: link.target },
    ).collect()
}

impl LinkStore {
    /// An empty store in memory. It can fail only for want of memory.
    pub fn new() -> (r: Result<LinkStore, StoreError>)
        ensures
            match r {
                Ok(store) => store@ == no_links(),
                Err(e) => e == StoreError::AllocFailed,
            },
    {
        raw_new()
    }

    /// The reserved references.
    pub fn constants(&self) -> (s: Sentinels)
        ensures
            s.null == null_ref(),
            s.any == any_ref(),
            s.itself == itself_ref(),
    {
        raw_constants(self)
    }

    /// Whether a link is stored at `index`.
    pub fn exist(&self, index: usize) -> (b: bool)
        ensures
            b == self@.contains_key(index),
            b ==> is_link_ref(index),
    {
        raw_exist(self, index)
    }

    /// The link stored at `index`, if there is one.
    pub fn get_link(&self, index: usize) -> (r: Option<Link>)
        ensures
            r == (if self@.contains_key(index) {
                Some(link_at(self@, index))
            } else {
                None
            }),
    {
        raw_get_link(self, index)
    }

    /// The index of a link from `source` to `target`, if the store holds
    /// one.
    pub fn search(&self, source: usize, target: usize) -> (found: Option<usize>)
        ensures
            search_outcome(self@, source, target, found),
    {
        raw_search(self, source, target)
    }

    /// The index of the link from `source` to `target`, which is created
    /// when the store holds none. A store at its limit still finds the links
    /// it holds, and refuses to create one with `LimitReached`.
    pub fn get_or_create(&mut self, source: usize, target: usize) -> (r: Result<usize, StoreError>)
        ensures
            get_or_create_outcome(old(self)@, source, target, r, final(self)@),
    {
        if self.count() < LINK_LIMIT {
            raw_get_or_create(self, source, target)
        } else {
            match raw_search(self, source, target) {
                Some(index) => Ok(index),
                None => Err(StoreError::LimitReached(LINK_LIMIT)),
            }
        }
    }

    /// Creates a link that is its own source and target, under an index
    /// that no link had. It fails on exhaustion alone, and then changes
    /// nothing: a store at its limit always refuses, with `LimitReached`.
    pub fn create_point(&mut self) -> (r: Result<usize, StoreError>)
        ensures
            !has_room(old(self)@) ==> r is Err,
            match r {
                Ok(i) => {
                    &&& !is_full(old(self)@)
                    &&& is_link_ref(i)
                    &&& !old(self)@.contains_key(i)
                    &&& final(self)@ == old(self)@.insert(i, (i, i))
                },
                Err(e) => final(self)@ == old(self)@ && e == creation_failure(old(self)@),
            },
    {
        if self.count() < LINK_LIMIT {
            raw_create_point(self)
        } else {
            Err(StoreError::LimitReached(LINK_LIMIT))
        }
    }

    /// Gives the link at `index` a new source and target. The store must
    /// be content-addressed, and stay so: no other link may connect
    /// `source` to `target`.
    pub fn update(&mut self, index: usize, source: usize, target: usize) -> (r: Result<
        usize,
        StoreError,
    >)
        requires
            unique_pairs(old(self)@),
            pair_is_free(old(self)@, index, source, target),
        ensures
            unique_pairs(final(self)@),
            r == (if old(self)@.contains_key(index) {
                Ok::<usize, StoreError>(index)
            } else {
                Err(StoreError::NotExists(index))
            }),
            final(self)@ == (if old(self)@.contains_key(index) {
                old(self)@.insert(index, (source, target))
            } else {
                old(self)@
            }),
    {
        raw_update(self, index, source, target)
    }

    /// The number of stored links.
    pub fn count(&self) -> (n: usize)
        ensures
            n == self@.dom().len(),
    {
        raw_count(self)
    }

    /// Every stored link, by rising index.
    pub fn links(&self) -> (r: Vec<Link>)
        ensures
            is_listing(self@, r@),
    {
        let any = raw_constants(self).any;
        raw_each(self, any, any, any)
    }
}

/// Finds the link stored at `id` by a query for that index.
pub fn get_link_by_id(store: &LinkStore, id: usize) -> (r: Result<Link, StoreError>)
    ensures
        r == (if store@.contains_key(id) {
            Ok::<Link, StoreError>(link_at(store@, id))
        } else {
            Err(StoreError::NotExists(id))
        }),
{
    let any = store.constants().any;
    let found = raw_each(store, id, any, any);
    let mut link_result: Result<Link, StoreError> = Err(StoreError::NotExists(id));
    let mut k: usize = 0;
    while k < found.len()
        invariant
            0 <= k <= found.len(),
            id == any_ref() ==> link_result == Err::<Link, StoreError>(StoreError::NotExists(id)),
            id != any_ref() ==> link_result == (if k > 0 {
                Ok::<Link, StoreError>(link_at(store@, id))
            } else {
                Err(StoreError::NotExists(id))
            }),
            id == any_ref() ==> is_listing(store@, found@),
            id != any_ref() ==> found@ == (if store@.contains_key(id) {
                seq![link_at(store@, id)]
            } else {
                Seq::<Link>::empty()
            }),
        decreases found.len() - k,
    {
        let link = found[k];
        if link.index == id {
            link_result = Ok(link);
        }
        k += 1;
    }
    proof {
        if id == any_ref() && store@.contains_key(id) {
            let j = choose|j: int| 0 <= j < found@.len() && (#[trigger] found@[j]).index == id;
            assert(is_link_ref(found@[j].index));
        }
    }
    link_result
}

/// Content-addressing idempotence: in a store without duplicate pairs, a
/// second get-or-create of the same addressable pair returns the reference
/// of the first and leaves the store as the first left it, and the first
/// added at most the one link it returned.
pub proof fn lemma_get_or_create_idempotent(
    start: Map<usize, (usize, usize)>,
    source: usize,
    target: usize,
    first: usize,
    between: Map<usize, (usize, usize)>,
    second: Result<usize, StoreError>,
    end: Map<usize, (usize, usize)>,
)
    requires
        unique_pairs(start),
        is_addressable(source),
        is_addressable(target),
        get_or_create_outcome(start, source, target, Ok(first), between),
        get_or_create_outcome(between, source, target, second, end),
    ensures
        second == Ok::<usize, StoreError>(first),
        end == between,
        between == start || (!start.contains_key(first) && between == start.insert(
            first,
            (source, target),
        )),
        forall|j: usize| #[trigger] end.contains_key(j) && end[j] == (source, target) ==> j == first,
{
    lemma_get_or_create_keeps_unique(start, source, target, Ok(first), between);
    assert(between.contains_key(first) && between[first] == (source, target));
    assert(holds_pair(between, source, target));
}

/// Get-or-create between addressable references never introduces a second
/// link for a pair.
pub proof fn lemma_get_or_create_keeps_unique(
    before: Map<usize, (usize, usize)>,
    source: usize,
    target: usize,
    result: Result<usize, StoreError>,
    after: Map<usize, (usize, usize)>,
)
    requires
        unique_pairs(before),
        is_addressable(source),
        is_addressable(target),
        result is Ok,
        get_or_create_outcome(before, source, target, result, after),
    ensures
        unique_pairs(after),
{
    let i = result->Ok_0;
    if !holds_pair(before, source, target) {
        assert forall|a: usize, b: usize|
            #[trigger] after.contains_key(a) && #[trigger] after.contains_key(b) && after[a]
                == after[b] implies a == b by {
            if a != b {
                if a == i {
                    assert(before.contains_key(b) && before[b] == (source, target));
                } else if b == i {
                    assert(before.contains_key(a) && before[a] == (source, target));
                }
            }
        }
    }
}

} // verus!

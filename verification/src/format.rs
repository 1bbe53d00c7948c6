//! The deep structural formatter: the expansion of a link into its sources
//! and targets, written as nested parentheses, with links met again and
//! missing links cut short.

use crate::link::{is_sentinel, Link};
use crate::store::{link_at, LinkStore, StoreError};
use crate::text::{
    append_index, count_of, index_text, is_punctuation, lemma_count_of_joined,
    lemma_count_of_one, lemma_index_text_is_plain,
};
use std::collections::HashSet;
use vstd::prelude::*;
use vstd::set_lib::{lemma_int_range, lemma_len_subset, set_int_range};
use vstd::string::StringExecFns;

verus! {

/// How a structure is rendered.
#[derive(Clone, Copy, PartialEq, Eq, Debug, Structural)]
pub struct RenderOptions {
    /// Expand a link again where it is met again.
    pub render_visited: bool,
    /// Write the index of a compound link before its expansion.
    pub render_index: bool,
    /// Mark missing links and links met again.
    pub render_debug: bool,
}

/// A rendering in progress: the text written, and the links met so far.
pub type Progress = (Seq<char>, Set<usize>);

/// The rendering of `index`, as far as `fuel` nested expansions reach.
///
/// A reserved reference contributes nothing. A reference without a stored
/// link is written bare, as missing. A link met again is written bare, as
/// visited, unless links are to be expanded again. An element is written
/// bare. Any other link is written as a compound of its source and its
/// target. Every stored link that is reached joins the links met.
pub open spec fn expand(
    fuel: nat,
    links: Map<usize, (usize, usize)>,
    element: spec_fn(Link) -> bool,
    options: RenderOptions,
    visited: Set<usize>,
    index: usize,
) -> Option<Progress>
    decreases fuel, 1nat,
{
    let seen = visited.contains(index);
    let debug = options.render_debug;
    if is_sentinel(index) {
        Some((Seq::empty(), visited))
    } else if !links.contains_key(index) {
        Some((index_text(index, true, false, debug), visited))
    } else if seen && !options.render_visited {
        Some((index_text(index, false, true, debug), visited))
    } else if element(link_at(links, index)) {
        Some((index_text(index, false, seen, debug), visited.insert(index)))
    } else if fuel == 0 {
        None
    } else {
        let link = link_at(links, index);
        let inner = (fuel - 1) as nat;
        match expand_field(inner, links, element, options, visited.insert(index), index, link.source) {
            None => None,
            Some(source) => match expand_field(
                inner,
                links,
                element,
                options,
                source.1,
                index,
                link.target,
            ) {
                None => None,
                Some(target) => Some(
                    (compound_text(options, index, seen, source.0, target.0), target.1),
                ),
            },
        }
    }
}

/// The rendering of the source or target `field` of the link `owner`: a
/// field that is the link itself is written bare, as visited, and any other
/// is expanded.
pub open spec fn expand_field(
    fuel: nat,
    links: Map<usize, (usize, usize)>,
    element: spec_fn(Link) -> bool,
    options: RenderOptions,
    visited: Set<usize>,
    owner: usize,
    field: usize,
) -> Option<Progress>
    decreases fuel, 2nat,
{
    if field == owner {
        Some((index_text(owner, false, true, options.render_debug), visited))
    } else {
        expand(fuel, links, element, options, visited, field)
    }
}

/// What opens a compound: `(`, and where indices are rendered the index of
/// the link, a colon and a space.
pub open spec fn opening_text(options: RenderOptions, index: usize, seen: bool) -> Seq<char> {
    if options.render_index {
        seq!['('] + index_text(index, false, seen, options.render_debug) + seq![':', ' ']
    } else {
        seq!['(']
    }
}

/// A compound: the opening, the source, a space, the target, and `)`.
pub open spec fn compound_text(
    options: RenderOptions,
    index: usize,
    seen: bool,
    source: Seq<char>,
    target: Seq<char>,
) -> Seq<char> {
    opening_text(options, index, seen) + source + seq![' '] + target + seq![')']
}

/// Whether the expansion of `root` comes to an end.
pub open spec fn expansion_ends(
    links: Map<usize, (usize, usize)>,
    element: spec_fn(Link) -> bool,
    options: RenderOptions,
    root: usize,
) -> bool {
    exists|fuel: nat| (#[trigger] expand(fuel, links, element, options, Set::empty(), root)) is Some
}

/// The text of the whole expansion of `root`, where that comes to an end.
pub open spec fn rendering(
    links: Map<usize, (usize, usize)>,
    element: spec_fn(Link) -> bool,
    options: RenderOptions,
    root: usize,
) -> Seq<char> {
    let fuel = choose|fuel: nat|
        (#[trigger] expand(fuel, links, element, options, Set::empty(), root)) is Some;
    expand(fuel, links, element, options, Set::empty(), root)->Some_0.0
}

/// Whether `is_element` can be asked about every link.
pub open spec fn is_total<F: Fn(&Link) -> bool>(is_element: F) -> bool {
    forall|link: Link| call_requires(is_element, (&link,))
}

/// Whether `element` tells, for every link, the only answer that
/// `is_element` can give about it.
pub open spec fn classifies<F: Fn(&Link) -> bool>(
    is_element: F,
    element: spec_fn(Link) -> bool,
) -> bool {
    forall|link: Link, answer: bool| #[trigger]
        call_ensures(is_element, (&link,), answer) ==> answer == element(link)
}

/// Whether the expansion of `index` is the same with every classification
/// that `is_element` admits as it is with `pivot`.
pub open spec fn expand_agrees<F: Fn(&Link) -> bool>(
    is_element: F,
    pivot: spec_fn(Link) -> bool,
    fuel: nat,
    links: Map<usize, (usize, usize)>,
    options: RenderOptions,
    visited: Set<usize>,
    index: usize,
) -> bool {
    forall|element: spec_fn(Link) -> bool|
        classifies(is_element, element) ==> #[trigger] expand(
            fuel,
            links,
            element,
            options,
            visited,
            index,
        ) == expand(fuel, links, pivot, options, visited, index)
}

/// Whether the expansion of the source or target `field` of `owner` is the
/// same with every classification that `is_element` admits as it is with
/// `pivot`.
pub open spec fn expand_field_agrees<F: Fn(&Link) -> bool>(
    is_element: F,
    pivot: spec_fn(Link) -> bool,
    fuel: nat,
    links: Map<usize, (usize, usize)>,
    options: RenderOptions,
    visited: Set<usize>,
    owner: usize,
    field: usize,
) -> bool {
    forall|element: spec_fn(Link) -> bool|
        classifies(is_element, element) ==> #[trigger] expand_field(
            fuel,
            links,
            element,
            options,
            visited,
            owner,
            field,
        ) == expand_field(fuel, links, pivot, options, visited, owner, field)
}

/// The rendering of `link_index` in `store`: its whole expansion into
/// sources and targets, down to the links that `is_element` accepts.
///
/// `is_element` has to be a pure classification: some `element` tells its
/// answer for every link. Where links met again are not expanded again,
/// every expansion comes to an end. Where they are, the expansion has to
/// come to an end by itself: no compound link may be reached again from its
/// own source or target, but as that source or target itself.
pub fn deep_format<F: Fn(&Link) -> bool>(
    store: &LinkStore,
    link_index: usize,
    is_element: F,
    render_visited: bool,
    render_index: bool,
    render_debug: bool,
) -> (r: Result<String, StoreError>)
    requires
        is_total(is_element),
        exists|element: spec_fn(Link) -> bool|
            {
                &&& #[trigger] classifies(is_element, element)
                &&& render_visited ==> expansion_ends(
                    store@,
                    element,
                    RenderOptions { render_visited, render_index, render_debug },
                    link_index,
                )
            },
    ensures
        r is Ok,
        forall|element: spec_fn(Link) -> bool| #[trigger]
            classifies(is_element, element) ==> r->Ok_0@ == rendering(
                store@,
                element,
                RenderOptions { render_visited, render_index, render_debug },
                link_index,
            ),
{
    let options = RenderOptions { render_visited, render_index, render_debug };
    let ghost pivot = choose|element: spec_fn(Link) -> bool|
        {
            &&& #[trigger] classifies(is_element, element)
            &&& render_visited ==> expansion_ends(store@, element, options, link_index)
        };
    proof {
        if !render_visited {
            lemma_expansion_ends_without_revisits(store@, pivot, options, link_index);
        }
    }
    let ghost fuel = choose|fuel: nat|
        (#[trigger] expand(fuel, store@, pivot, options, Set::empty(), link_index)) is Some;
    let mut sb = String::new();
    let mut visited: HashSet<usize> = HashSet::new();
    append_structure(
        store,
        &mut sb,
        &mut visited,
        link_index,
        &is_element,
        options,
        None,
        Ghost(fuel),
        Ghost(pivot),
    );
    proof {
        let text = expand(fuel, store@, pivot, options, Set::empty(), link_index)->Some_0.0;
        assert(sb@ =~= text);
        assert forall|element: spec_fn(Link) -> bool| #[trigger]
            classifies(is_element, element) implies sb@ == rendering(
            store@,
            element,
            options,
            link_index,
        ) by {
            assert(expand(fuel, store@, element, options, Set::empty(), link_index) == expand(
                fuel,
                store@,
                pivot,
                options,
                Set::empty(),
                link_index,
            ));
            lemma_rendering_by_fuel(fuel, store@, element, options, link_index);
        }
    }
    Ok(sb)
}

/// The rendering of `link_index` in `store` as [`deep_format`] gives it,
/// where `limit` nested expansions reach its end, and nothing where they do
/// not. This asks nothing of the links: an expansion that would go on for
/// ever is given up. As many nested expansions as the store has links reach
/// the end of every expansion that has one.
pub fn deep_format_within<F: Fn(&Link) -> bool>(
    store: &LinkStore,
    link_index: usize,
    is_element: F,
    render_visited: bool,
    render_index: bool,
    render_debug: bool,
    limit: usize,
) -> (r: Option<String>)
    requires
        is_total(is_element),
        exists|element: spec_fn(Link) -> bool| #[trigger] classifies(is_element, element),
    ensures
        forall|element: spec_fn(Link) -> bool| #[trigger]
            classifies(is_element, element) ==> match r {
                Some(text) => {
                    &&& expand(
                        limit as nat,
                        store@,
                        element,
                        RenderOptions { render_visited, render_index, render_debug },
                        Set::empty(),
                        link_index,
                    ) is Some
                    &&& text@ == rendering(
                        store@,
                        element,
                        RenderOptions { render_visited, render_index, render_debug },
                        link_index,
                    )
                },
                None => {
                    &&& expand(
                        limit as nat,
                        store@,
                        element,
                        RenderOptions { render_visited, render_index, render_debug },
                        Set::empty(),
                        link_index,
                    ) is None
                    &&& limit >= store@.dom().len() ==> !expansion_ends(
                        store@,
                        element,
                        RenderOptions { render_visited, render_index, render_debug },
                        link_index,
                    )
                },
            },
{
    let options = RenderOptions { render_visited, render_index, render_debug };
    let ghost pivot = choose|element: spec_fn(Link) -> bool| #[trigger]
        classifies(is_element, element);
    let ghost fuel = limit as nat;
    let mut sb = String::new();
    let mut visited: HashSet<usize> = HashSet::new();
    let done = append_structure(
        store,
        &mut sb,
        &mut visited,
        link_index,
        &is_element,
        options,
        Some(limit),
        Ghost(fuel),
        Ghost(pivot),
    );
    proof {
        assert forall|element: spec_fn(Link) -> bool| #[trigger]
            classifies(is_element, element) implies expand(
            fuel,
            store@,
            element,
            options,
            Set::empty(),
            link_index,
        ) == expand(fuel, store@, pivot, options, Set::empty(), link_index) && (done ==> sb@
            == rendering(store@, element, options, link_index)) && (!done && limit
            >= store@.dom().len() ==> !expansion_ends(store@, element, options, link_index)) by {
            assert(expand(fuel, store@, element, options, Set::empty(), link_index) == expand(
                fuel,
                store@,
                pivot,
                options,
                Set::empty(),
                link_index,
            ));
            if done {
                let text = expand(fuel, store@, pivot, options, Set::empty(), link_index)->Some_0.0;
                assert(sb@ =~= text);
                lemma_rendering_by_fuel(fuel, store@, element, options, link_index);
            } else if limit >= store@.dom().len() && expansion_ends(
                store@,
                element,
                options,
                link_index,
            ) {
                lemma_expansion_ends_within_links(store@, element, options, link_index);
                lemma_expand_stable(
                    store@.dom().len(),
                    fuel,
                    store@,
                    element,
                    options,
                    Set::empty(),
                    link_index,
                );
            }
        }
    }
    if done {
        Some(sb)
    } else {
        None
    }
}

/// Every set of references is finite.
pub proof fn lemma_reference_sets_finite(s: Set<usize>)
    ensures
        s.finite(),
{
    let all = set_int_range(0, usize::MAX + 1);
    lemma_int_range(0, usize::MAX + 1);
    let narrow = |i: int| i as usize;
    all.lemma_map_finite(narrow);
    assert forall|r: usize| s.contains(r) implies all.map(narrow).contains(r) by {
        assert(all.contains(r as int) && narrow(r as int) == r);
    }
    lemma_len_subset(s, all.map(narrow));
}

/// An expansion never forgets a link it has met.
pub proof fn lemma_expand_keeps_visited(
    fuel: nat,
    links: Map<usize, (usize, usize)>,
    element: spec_fn(Link) -> bool,
    options: RenderOptions,
    visited: Set<usize>,
    index: usize,
)
    requires
        expand(fuel, links, element, options, visited, index) is Some,
    ensures
        visited.subset_of(expand(fuel, links, element, options, visited, index)->Some_0.1),
    decreases fuel,
{
    let link = link_at(links, index);
    let met = visited.insert(index);
    if !is_sentinel(index) && links.contains_key(index) && !(visited.contains(index)
        && !options.render_visited) && !element(link) {
        let inner = (fuel - 1) as nat;
        let source = expand_field(inner, links, element, options, met, index, link.source)->Some_0;
        if link.source != index {
            lemma_expand_keeps_visited(inner, links, element, options, met, link.source);
        }
        if link.target != index {
            lemma_expand_keeps_visited(inner, links, element, options, source.1, link.target);
        }
    }
}

/// Where links met again are not expanded again, an expansion needs no more
/// fuel than there are stored links not met yet.
pub proof fn lemma_expand_ends(
    fuel: nat,
    links: Map<usize, (usize, usize)>,
    element: spec_fn(Link) -> bool,
    options: RenderOptions,
    visited: Set<usize>,
    index: usize,
)
    requires
        !options.render_visited,
        links.dom().difference(visited).len() <= fuel,
    ensures
        expand(fuel, links, element, options, visited, index) is Some,
    decreases fuel,
{
    let link = link_at(links, index);
    let met = visited.insert(index);
    if !is_sentinel(index) && links.contains_key(index) && !visited.contains(index) && !element(
        link,
    ) {
        let unmet = links.dom().difference(visited);
        lemma_reference_sets_finite(unmet);
        assert(unmet.contains(index));
        assert(links.dom().difference(met) =~= unmet.remove(index));
        let inner = (fuel - 1) as nat;
        if link.source != index {
            lemma_expand_ends(inner, links, element, options, met, link.source);
            lemma_expand_keeps_visited(inner, links, element, options, met, link.source);
        }
        let source = expand_field(inner, links, element, options, met, index, link.source)->Some_0;
        if link.target != index {
            lemma_reference_sets_finite(links.dom().difference(met));
            lemma_len_subset(links.dom().difference(source.1), links.dom().difference(met));
            lemma_expand_ends(inner, links, element, options, source.1, link.target);
        }
    }
}

/// More fuel changes nothing in an expansion that has come to an end.
pub proof fn lemma_expand_stable(
    fuel: nat,
    more: nat,
    links: Map<usize, (usize, usize)>,
    element: spec_fn(Link) -> bool,
    options: RenderOptions,
    visited: Set<usize>,
    index: usize,
)
    requires
        fuel <= more,
        expand(fuel, links, element, options, visited, index) is Some,
    ensures
        expand(more, links, element, options, visited, index) == expand(
            fuel,
            links,
            element,
            options,
            visited,
            index,
        ),
    decreases fuel,
{
    let link = link_at(links, index);
    let met = visited.insert(index);
    if !is_sentinel(index) && links.contains_key(index) && !(visited.contains(index)
        && !options.render_visited) && !element(link) {
        let inner = (fuel - 1) as nat;
        let wider = (more - 1) as nat;
        let source = expand_field(inner, links, element, options, met, index, link.source)->Some_0;
        if link.source != index {
            lemma_expand_stable(inner, wider, links, element, options, met, link.source);
        }
        if link.target != index {
            lemma_expand_stable(inner, wider, links, element, options, source.1, link.target);
        }
    }
}

/// Where links met again are expanded again, which links have been met
/// makes no difference to whether an expansion comes to an end.
pub proof fn lemma_ending_ignores_visited(
    fuel: nat,
    links: Map<usize, (usize, usize)>,
    element: spec_fn(Link) -> bool,
    options: RenderOptions,
    visited: Set<usize>,
    other: Set<usize>,
    index: usize,
)
    requires
        options.render_visited,
    ensures
        expand(fuel, links, element, options, visited, index) is Some <==> expand(
            fuel,
            links,
            element,
            options,
            other,
            index,
        ) is Some,
    decreases fuel,
{
    let link = link_at(links, index);
    if !is_sentinel(index) && links.contains_key(index) && !element(link) && fuel > 0 {
        let inner = (fuel - 1) as nat;
        let met = visited.insert(index);
        let other_met = other.insert(index);
        if link.source != index {
            lemma_ending_ignores_visited(
                inner,
                links,
                element,
                options,
                met,
                other_met,
                link.source,
            );
        }
        let source = expand_field(inner, links, element, options, met, index, link.source);
        let other_source = expand_field(
            inner,
            links,
            element,
            options,
            other_met,
            index,
            link.source,
        );
        if source is Some && link.target != index {
            lemma_ending_ignores_visited(
                inner,
                links,
                element,
                options,
                source->Some_0.1,
                other_source->Some_0.1,
                link.target,
            );
        }
    }
}

/// The least fuel with which an expansion comes to an end.
pub proof fn lemma_least_fuel(
    fuel: nat,
    links: Map<usize, (usize, usize)>,
    element: spec_fn(Link) -> bool,
    options: RenderOptions,
    index: usize,
) -> (least: nat)
    requires
        expand(fuel, links, element, options, Set::empty(), index) is Some,
    ensures
        least <= fuel,
        expand(least, links, element, options, Set::empty(), index) is Some,
        least > 0 ==> expand((least - 1) as nat, links, element, options, Set::empty(), index)
            is None,
    decreases fuel,
{
    if fuel > 0 && expand((fuel - 1) as nat, links, element, options, Set::empty(), index)
        is Some {
        lemma_least_fuel((fuel - 1) as nat, links, element, options, index)
    } else {
        fuel
    }
}

/// Where links met again are expanded again, an expansion that needs all of
/// `fuel` to come to an end passes through that many different stored
/// links, one inside the other.
pub proof fn lemma_nested_links(
    fuel: nat,
    links: Map<usize, (usize, usize)>,
    element: spec_fn(Link) -> bool,
    options: RenderOptions,
    index: usize,
) -> (nested: Set<usize>)
    requires
        options.render_visited,
        expand(fuel, links, element, options, Set::empty(), index) is Some,
        fuel > 0 ==> expand((fuel - 1) as nat, links, element, options, Set::empty(), index)
            is None,
    ensures
        nested.finite(),
        nested.len() == fuel,
        nested.subset_of(links.dom()),
        forall|k: usize|
            nested.contains(k) ==> (#[trigger] expand(
                fuel,
                links,
                element,
                options,
                Set::empty(),
                k,
            )) is Some,
    decreases fuel,
{
    if fuel == 0 {
        Set::empty()
    } else {
        let none = Set::<usize>::empty();
        let link = link_at(links, index);
        let inner = (fuel - 1) as nat;
        let met = none.insert(index);
        let source = expand_field(inner, links, element, options, met, index, link.source);
        let after_source = source->Some_0.1;
        let deep = if link.source != index && (inner == 0 || expand(
            (inner - 1) as nat,
            links,
            element,
            options,
            none,
            link.source,
        ) is None) {
            link.source
        } else {
            link.target
        };
        if link.source != index {
            lemma_ending_ignores_visited(inner, links, element, options, met, none, link.source);
        }
        if link.target != index {
            lemma_ending_ignores_visited(
                inner,
                links,
                element,
                options,
                after_source,
                none,
                link.target,
            );
        }
        if inner > 0 {
            let less = (inner - 1) as nat;
            if link.source != index {
                lemma_ending_ignores_visited(less, links, element, options, met, none, link.source);
            }
            let shallow = expand_field(less, links, element, options, met, index, link.source);
            if shallow is Some && link.target != index {
                lemma_ending_ignores_visited(
                    less,
                    links,
                    element,
                    options,
                    shallow->Some_0.1,
                    none,
                    link.target,
                );
            }
        }
        let below = if inner == 0 {
            Set::empty()
        } else {
            lemma_nested_links(inner, links, element, options, deep)
        };
        assert forall|k: usize| below.insert(index).contains(k) implies (#[trigger] expand(
            fuel,
            links,
            element,
            options,
            none,
            k,
        )) is Some by {
            if k != index {
                lemma_expand_stable(inner, fuel, links, element, options, none, k);
            }
        }
        below.insert(index)
    }
}

/// An expansion that comes to an end at all needs no more fuel than there
/// are stored links.
pub proof fn lemma_expansion_ends_within_links(
    links: Map<usize, (usize, usize)>,
    element: spec_fn(Link) -> bool,
    options: RenderOptions,
    root: usize,
)
    requires
        expansion_ends(links, element, options, root),
    ensures
        expand(links.dom().len(), links, element, options, Set::empty(), root) is Some,
{
    lemma_reference_sets_finite(links.dom());
    if options.render_visited {
        let fuel = choose|fuel: nat|
            (#[trigger] expand(fuel, links, element, options, Set::empty(), root)) is Some;
        let least = lemma_least_fuel(fuel, links, element, options, root);
        let nested = lemma_nested_links(least, links, element, options, root);
        lemma_len_subset(nested, links.dom());
        lemma_expand_stable(least, links.dom().len(), links, element, options, Set::empty(), root);
    } else {
        assert(links.dom().difference(Set::empty()) =~= links.dom());
        lemma_expand_ends(links.dom().len(), links, element, options, Set::empty(), root);
    }
}

/// Whether `text` is balanced as a rendering is: it closes as many
/// parentheses as it opens, and for each one that it opens it has one
/// space, and where indices are rendered one colon and one more space.
pub open spec fn is_balanced(text: Seq<char>, options: RenderOptions) -> bool {
    let opened = count_of(text, '(');
    &&& count_of(text, ')') == opened
    &&& count_of(text, ' ') == if options.render_index {
        2 * opened
    } else {
        opened
    }
    &&& count_of(text, ':') == if options.render_index {
        opened
    } else {
        0
    }
}

/// The text of a reference is balanced: it holds no punctuation at all.
pub proof fn lemma_index_text_balanced(
    index: usize,
    is_missing: bool,
    is_visited: bool,
    options: RenderOptions,
)
    ensures
        is_balanced(index_text(index, is_missing, is_visited, options.render_debug), options),
{
    let debug = options.render_debug;
    lemma_index_text_is_plain(index, is_missing, is_visited, debug, '(');
    lemma_index_text_is_plain(index, is_missing, is_visited, debug, ')');
    lemma_index_text_is_plain(index, is_missing, is_visited, debug, ' ');
    lemma_index_text_is_plain(index, is_missing, is_visited, debug, ':');
}

/// A compound of two balanced texts is balanced.
pub proof fn lemma_compound_balanced(
    options: RenderOptions,
    index: usize,
    seen: bool,
    source: Seq<char>,
    target: Seq<char>,
)
    requires
        is_balanced(source, options),
        is_balanced(target, options),
    ensures
        is_balanced(compound_text(options, index, seen, source, target), options),
{
    let own = index_text(index, false, seen, options.render_debug);
    let opening = opening_text(options, index, seen);
    assert forall|c: char| is_punctuation(c) implies count_of(
        compound_text(options, index, seen, source, target),
        c,
    ) == count_of(opening, c) + count_of(source, c) + count_of(seq![' '], c) + count_of(target, c)
        + count_of(seq![')'], c) && count_of(opening, c) == count_of(seq!['('], c)
        + if options.render_index {
        count_of(seq![':', ' '], c)
    } else {
        0
    } by {
        lemma_count_of_joined(opening, source, c);
        lemma_count_of_joined(opening + source, seq![' '], c);
        lemma_count_of_joined(opening + source + seq![' '], target, c);
        lemma_count_of_joined(opening + source + seq![' '] + target, seq![')'], c);
        if options.render_index {
            lemma_index_text_is_plain(index, false, seen, options.render_debug, c);
            lemma_count_of_joined(seq!['('], own, c);
            lemma_count_of_joined(seq!['('] + own, seq![':', ' '], c);
        }
    }
    assert forall|c: char| is_punctuation(c) implies count_of(seq![':', ' '], c) == count_of(
        seq![':'],
        c,
    ) + count_of(seq![' '], c) by {
        lemma_count_of_joined(seq![':'], seq![' '], c);
        assert(seq![':'] + seq![' '] =~= seq![':', ' ']);
    }
    assert forall|one: char, c: char| #[trigger]
        count_of(seq![one], c) == if one == c {
            1nat
        } else {
            0nat
        } by {
        lemma_count_of_one(one, c);
    }
    assert(is_punctuation('(') && is_punctuation(')') && is_punctuation(' ') && is_punctuation(':'));
}

/// Balance: the text of every expansion that has come to an end is
/// balanced.
pub proof fn lemma_expand_balanced(
    fuel: nat,
    links: Map<usize, (usize, usize)>,
    element: spec_fn(Link) -> bool,
    options: RenderOptions,
    visited: Set<usize>,
    index: usize,
)
    requires
        expand(fuel, links, element, options, visited, index) is Some,
    ensures
        is_balanced(expand(fuel, links, element, options, visited, index)->Some_0.0, options),
    decreases fuel,
{
    let seen = visited.contains(index);
    let link = link_at(links, index);
    let met = visited.insert(index);
    lemma_index_text_balanced(index, true, false, options);
    lemma_index_text_balanced(index, false, true, options);
    lemma_index_text_balanced(index, false, seen, options);
    if is_sentinel(index) {
        assert(count_of(Seq::<char>::empty(), '(') == 0);
    } else if links.contains_key(index) && !(seen && !options.render_visited) && !element(link) {
        let inner = (fuel - 1) as nat;
        let source = expand_field(inner, links, element, options, met, index, link.source)->Some_0;
        let target = expand_field(
            inner,
            links,
            element,
            options,
            source.1,
            index,
            link.target,
        )->Some_0;
        if link.source != index {
            lemma_expand_balanced(inner, links, element, options, met, link.source);
        }
        if link.target != index {
            lemma_expand_balanced(inner, links, element, options, source.1, link.target);
        }
        lemma_compound_balanced(options, index, seen, source.0, target.0);
    }
}

/// Balance: every rendering is balanced.
pub proof fn lemma_rendering_balanced(
    links: Map<usize, (usize, usize)>,
    element: spec_fn(Link) -> bool,
    options: RenderOptions,
    root: usize,
)
    requires
        expansion_ends(links, element, options, root),
    ensures
        is_balanced(rendering(links, element, options, root), options),
{
    let fuel = choose|fuel: nat|
        (#[trigger] expand(fuel, links, element, options, Set::empty(), root)) is Some;
    lemma_expand_balanced(fuel, links, element, options, Set::empty(), root);
}

/// The rendering is the text of any expansion that has come to an end.
pub proof fn lemma_rendering_by_fuel(
    fuel: nat,
    links: Map<usize, (usize, usize)>,
    element: spec_fn(Link) -> bool,
    options: RenderOptions,
    root: usize,
)
    requires
        expand(fuel, links, element, options, Set::empty(), root) is Some,
    ensures
        expansion_ends(links, element, options, root),
        rendering(links, element, options, root) == expand(
            fuel,
            links,
            element,
            options,
            Set::empty(),
            root,
        )->Some_0.0,
{
    let chosen = choose|fuel: nat|
        (#[trigger] expand(fuel, links, element, options, Set::empty(), root)) is Some;
    if chosen <= fuel {
        lemma_expand_stable(chosen, fuel, links, element, options, Set::empty(), root);
    } else {
        lemma_expand_stable(fuel, chosen, links, element, options, Set::empty(), root);
    }
}

/// Cycle safety: where links met again are not expanded again, the
/// expansion of every reference comes to an end, whatever the links are.
pub proof fn lemma_expansion_ends_without_revisits(
    links: Map<usize, (usize, usize)>,
    element: spec_fn(Link) -> bool,
    options: RenderOptions,
    root: usize,
)
    requires
        !options.render_visited,
    ensures
        expansion_ends(links, element, options, root),
{
    lemma_reference_sets_finite(links.dom().difference(Set::empty()));
    let fuel = links.dom().difference(Set::empty()).len();
    lemma_expand_ends(fuel, links, element, options, Set::empty(), root);
}

/// Cycle safety: where links met again are not expanded again, a stored
/// link that is met again is written as its bare index, marked as visited
/// under `render_debug`, and nothing below it is expanded.
pub proof fn lemma_revisit_renders_bare(
    fuel: nat,
    links: Map<usize, (usize, usize)>,
    element: spec_fn(Link) -> bool,
    options: RenderOptions,
    visited: Set<usize>,
    index: usize,
)
    requires
        !options.render_visited,
        !is_sentinel(index),
        links.contains_key(index),
        visited.contains(index),
    ensures
        expand(fuel, links, element, options, visited, index) == Some(
            (index_text(index, false, true, options.render_debug), visited),
        ),
{
}

/// Sentinel skip: a reserved reference renders as the empty text.
pub proof fn lemma_sentinel_renders_nothing(
    links: Map<usize, (usize, usize)>,
    element: spec_fn(Link) -> bool,
    options: RenderOptions,
    root: usize,
)
    requires
        is_sentinel(root),
    ensures
        expansion_ends(links, element, options, root),
        rendering(links, element, options, root) == Seq::<char>::empty(),
{
    lemma_rendering_by_fuel(0, links, element, options, root);
}

/// Missing reference rendering: a reference without a stored link renders
/// as its bare index, marked as missing under `render_debug`.
pub proof fn lemma_missing_renders_bare(
    links: Map<usize, (usize, usize)>,
    element: spec_fn(Link) -> bool,
    options: RenderOptions,
    root: usize,
)
    requires
        !is_sentinel(root),
        !links.contains_key(root),
    ensures
        expansion_ends(links, element, options, root),
        rendering(links, element, options, root) == index_text(
            root,
            true,
            false,
            options.render_debug,
        ),
{
    lemma_rendering_by_fuel(0, links, element, options, root);
}

/// Records that `index` is met, and tells whether it had been met before.
fn mark_visited(visited: &mut HashSet<usize>, index: usize) -> (seen: bool)
    ensures
        seen == old(visited)@.contains(index),
        final(visited)@ == old(visited)@.insert(index),
{
    broadcast use {
        vstd::std_specs::hash::axiom_usize_obeys_hash_table_key_model,
        vstd::std_specs::hash::axiom_random_state_builds_valid_hashers,
    };

    !visited.insert(index)
}

/// Appends what opens the compound of the link `index`.
fn append_opening(sb: &mut String, index: usize, is_visited: bool, options: RenderOptions)
    ensures
        final(sb)@ == old(sb)@ + opening_text(options, index, is_visited),
{
    proof {
        reveal_strlit("(");
        reveal_strlit(": ");
    }
    sb.append("(");
    if options.render_index {
        append_index(sb, index, false, is_visited, options.render_debug);
        sb.append(": ");
    }
    assert("("@ =~= seq!['(']);
    assert(": "@ =~= seq![':', ' ']);
    assert(sb@ =~= old(sb)@ + opening_text(options, index, is_visited));
}

/// Appends one character of punctuation: the space between source and
/// target, or the closing parenthesis.
fn append_mark(sb: &mut String, closing: bool)
    ensures
        final(sb)@ == old(sb)@ + seq![if closing { ')' } else { ' ' }],
{
    proof {
        reveal_strlit(")");
        reveal_strlit(" ");
    }
    if closing {
        sb.append(")");
        assert(")"@ =~= seq![')']);
    } else {
        sb.append(" ");
        assert(" "@ =~= seq![' ']);
    }
}

/// Where `is_element` denies that the stored link at `index` is an element,
/// and the expansions of its source and of its target are the same with
/// every classification that `is_element` admits, so is its own.
proof fn lemma_compound_agrees<F: Fn(&Link) -> bool>(
    is_element: F,
    pivot: spec_fn(Link) -> bool,
    fuel: nat,
    links: Map<usize, (usize, usize)>,
    options: RenderOptions,
    visited: Set<usize>,
    index: usize,
)
    requires
        classifies(is_element, pivot),
        call_ensures(is_element, (&link_at(links, index),), false),
        fuel > 0 ==> expand_field_agrees(
            is_element,
            pivot,
            (fuel - 1) as nat,
            links,
            options,
            visited.insert(index),
            index,
            links[index].0,
        ),
        fuel > 0 ==> (expand_field(
            (fuel - 1) as nat,
            links,
            pivot,
            options,
            visited.insert(index),
            index,
            links[index].0,
        ) matches Some(source) ==> expand_field_agrees(
            is_element,
            pivot,
            (fuel - 1) as nat,
            links,
            options,
            source.1,
            index,
            links[index].1,
        )),
    ensures
        expand_agrees(is_element, pivot, fuel, links, options, visited, index),
{
    let link = link_at(links, index);
    let inner = (fuel - 1) as nat;
    let met = visited.insert(index);
    assert forall|element: spec_fn(Link) -> bool|
        classifies(is_element, element) implies #[trigger] expand(
        fuel,
        links,
        element,
        options,
        visited,
        index,
    ) == expand(fuel, links, pivot, options, visited, index) by {
        assert(!element(link) && !pivot(link));
        if fuel > 0 {
            let source = expand_field(inner, links, pivot, options, met, index, link.source);
            assert(expand_field(inner, links, element, options, met, index, link.source)
                == source);
            if source is Some {
                assert(expand_field(
                    inner,
                    links,
                    element,
                    options,
                    source->Some_0.1,
                    index,
                    link.target,
                ) == expand_field(
                    inner,
                    links,
                    pivot,
                    options,
                    source->Some_0.1,
                    index,
                    link.target,
                ));
            }
        }
    }
}

/// Appends the rendering of `link_index` and records the links met, and
/// tells whether the expansion came to an end.
///
/// With a `budget`, that many nested expansions are made and no more.
/// Without one, `fuel` has to be enough. `pivot` is one classification that
/// `is_element` admits; every other one agrees with it on the links that
/// are asked about, and so on the whole expansion.
fn append_structure<F: Fn(&Link) -> bool>(
    store: &LinkStore,
    sb: &mut String,
    visited: &mut HashSet<usize>,
    link_index: usize,
    is_element: &F,
    options: RenderOptions,
    budget: Option<usize>,
    Ghost(fuel): Ghost<nat>,
    Ghost(pivot): Ghost<spec_fn(Link) -> bool>,
) -> (done: bool)
    requires
        is_total(*is_element),
        classifies(*is_element, pivot),
        match budget {
            Some(limit) => fuel == limit,
            None => expand(fuel, store@, pivot, options, old(visited)@, link_index) is Some,
        },
    ensures
        done == expand(fuel, store@, pivot, options, old(visited)@, link_index) is Some,
        done ==> final(sb)@ == old(sb)@ + expand(
            fuel,
            store@,
            pivot,
            options,
            old(visited)@,
            link_index,
        )->Some_0.0,
        done ==> final(visited)@ == expand(
            fuel,
            store@,
            pivot,
            options,
            old(visited)@,
            link_index,
        )->Some_0.1,
        expand_agrees(*is_element, pivot, fuel, store@, options, old(visited)@, link_index),
    decreases fuel, 1nat,
{
    let ghost before = sb@;
    let ghost met = visited@;
    let constants = store.constants();
    if constants.contains(link_index) {
        assert(sb@ =~= before + Seq::<char>::empty());
        return true;
    }
    if !store.exist(link_index) {
        append_index(sb, link_index, true, false, options.render_debug);
        return true;
    }
    let is_visited = mark_visited(visited, link_index);
    if is_visited && !options.render_visited {
        assert(visited@ =~= met);
        append_index(sb, link_index, false, is_visited, options.render_debug);
        return true;
    }
    let link = match store.get_link(link_index) {
        Some(link) => link,
        None => {
            append_index(sb, link_index, true, is_visited, options.render_debug);
            return true;
        },
    };
    let answer = is_element(&link);
    assert(call_ensures(*is_element, (&link,), answer));
    if answer {
        append_index(sb, link_index, false, is_visited, options.render_debug);
        return true;
    }
    let ghost inner = (fuel - 1) as nat;
    let inner_budget = match budget {
        Some(limit) => {
            if limit == 0 {
                proof {
                    lemma_compound_agrees(
                        *is_element,
                        pivot,
                        fuel,
                        store@,
                        options,
                        met,
                        link_index,
                    );
                }
                return false;
            }
            Some(limit - 1)
        },
        None => None,
    };
    let ghost source = expand_field(
        inner,
        store@,
        pivot,
        options,
        met.insert(link_index),
        link_index,
        link.source,
    );
    append_opening(sb, link_index, is_visited, options);
    let source_done = append_field(
        store,
        sb,
        visited,
        link_index,
        link.source,
        is_element,
        options,
        inner_budget,
        Ghost(inner),
        Ghost(pivot),
    );
    if !source_done {
        proof {
            lemma_compound_agrees(*is_element, pivot, fuel, store@, options, met, link_index);
        }
        return false;
    }
    append_mark(sb, false);
    let target_done = append_field(
        store,
        sb,
        visited,
        link_index,
        link.target,
        is_element,
        options,
        inner_budget,
        Ghost(inner),
        Ghost(pivot),
    );
    proof {
        lemma_compound_agrees(*is_element, pivot, fuel, store@, options, met, link_index);
    }
    if !target_done {
        return false;
    }
    append_mark(sb, true);
    proof {
        let target = expand_field(
            inner,
            store@,
            pivot,
            options,
            source->Some_0.1,
            link_index,
            link.target,
        );
        assert(sb@ =~= before + compound_text(
            options,
            link_index,
            is_visited,
            source->Some_0.0,
            target->Some_0.0,
        ));
    }
    true
}

/// Appends the rendering of the source or target `field` of the link
/// `owner`, and tells whether the expansion came to an end.
fn append_field<F: Fn(&Link) -> bool>(
    store: &LinkStore,
    sb: &mut String,
    visited: &mut HashSet<usize>,
    owner: usize,
    field: usize,
    is_element: &F,
    options: RenderOptions,
    budget: Option<usize>,
    Ghost(fuel): Ghost<nat>,
    Ghost(pivot): Ghost<spec_fn(Link) -> bool>,
) -> (done: bool)
    requires
        is_total(*is_element),
        classifies(*is_element, pivot),
        match budget {
            Some(limit) => fuel == limit,
            None => expand_field(fuel, store@, pivot, options, old(visited)@, owner, field) is Some,
        },
    ensures
        done == expand_field(fuel, store@, pivot, options, old(visited)@, owner, field) is Some,
        done ==> final(sb)@ == old(sb)@ + expand_field(
            fuel,
            store@,
            pivot,
            options,
            old(visited)@,
            owner,
            field,
        )->Some_0.0,
        done ==> final(visited)@ == expand_field(
            fuel,
            store@,
            pivot,
            options,
            old(visited)@,
            owner,
            field,
        )->Some_0.1,
        expand_field_agrees(*is_element, pivot, fuel, store@, options, old(visited)@, owner, field),
    decreases fuel, 2nat,
{
    let ghost met = visited@;
    if field == owner {
        append_index(sb, owner, false, true, options.render_debug);
        true
    } else {
        let done = append_structure(
            store,
            sb,
            visited,
            field,
            is_element,
            options,
            budget,
            Ghost(fuel),
            Ghost(pivot),
        );
        assert forall|element: spec_fn(Link) -> bool|
            classifies(*is_element, element) implies #[trigger] expand_field(
            fuel,
            store@,
            element,
            options,
            met,
            owner,
            field,
        ) == expand_field(fuel, store@, pivot, options, met, owner, field) by {
            assert(expand(fuel, store@, element, options, met, field) == expand(
                fuel,
                store@,
                pivot,
                options,
                met,
                field,
            ));
        }
        done
    }
}

} // verus!

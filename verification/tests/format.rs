use link_variants::format::{deep_format, deep_format_within};
use link_variants::link::Link;
use link_variants::store::LinkStore;
use link_variants::variants::all_seq_variants;

fn new_store() -> LinkStore {
    match LinkStore::new() {
        Ok(store) => store,
        Err(e) => panic!("no store: {:?}", e),
    }
}

fn named(text: &str, x: usize, y: usize) -> String {
    text.replace(&x.to_string(), "x").replace(&y.to_string(), "y")
}

#[test]
fn end_to_end_example() {
    let mut store = new_store();
    let x = store.create_point().unwrap();
    let y = store.create_point().unwrap();
    let roots = all_seq_variants(&mut store, &[x, y, x]).unwrap();
    assert_eq!(roots.len(), 2);
    let right = deep_format(&store, roots[0], |link: &Link| link.is_full(), false, false, false)
        .unwrap();
    let left = deep_format(&store, roots[1], |link: &Link| link.is_full(), false, false, false)
        .unwrap();
    assert_eq!(named(&right, x, y), "(x (y x))");
    assert_eq!(named(&left, x, y), "((x y) x)");
    assert_eq!(left, format!("(({} {}) {})", x, y, x));
}

#[test]
fn sentinels_render_as_nothing() {
    let mut store = new_store();
    store.create_point().unwrap();
    let constants = store.constants();
    for root in [constants.null, constants.any, constants.itself] {
        for flags in 0..8 {
            let text = deep_format(
                &store,
                root,
                |_: &Link| false,
                flags & 1 != 0,
                flags & 2 != 0,
                flags & 4 != 0,
            );
            assert_eq!(text, Ok(String::new()));
        }
    }
}

#[test]
fn missing_reference_renders_bare() {
    let mut store = new_store();
    let x = store.create_point().unwrap();
    let missing = x + 10;
    assert_eq!(
        deep_format(&store, missing, |_: &Link| false, false, false, false),
        Ok(missing.to_string())
    );
    assert_eq!(
        deep_format(&store, missing, |_: &Link| false, false, true, false),
        Ok(missing.to_string())
    );
    assert_eq!(
        deep_format(&store, missing, |_: &Link| false, true, false, true),
        Ok(format!("~{}", missing))
    );
}

#[test]
fn missing_source_is_marked_inside_a_compound() {
    let mut store = new_store();
    let x = store.create_point().unwrap();
    let gone = x + 20;
    let link = store.get_or_create(gone, x).unwrap();
    assert_eq!(
        deep_format(&store, link, |l: &Link| l.is_full(), false, false, true),
        Ok(format!("(~{} {})", gone, x))
    );
    assert_eq!(
        deep_format(&store, link, |l: &Link| l.is_full(), false, false, false),
        Ok(format!("({} {})", gone, x))
    );
}

#[test]
fn element_is_never_expanded() {
    let mut store = new_store();
    let a = store.create_point().unwrap();
    let b = store.create_point().unwrap();
    let ab = store.get_or_create(a, b).unwrap();
    assert_eq!(
        deep_format(&store, ab, |_: &Link| true, true, true, true),
        Ok(ab.to_string())
    );
    assert_eq!(
        deep_format(&store, ab, |l: &Link| l.is_partial(), false, false, false),
        Ok(format!("({} {})", a, b))
    );
}

#[test]
fn cycle_is_cut_at_the_revisit() {
    let mut store = new_store();
    let a = store.create_point().unwrap();
    let b = store.create_point().unwrap();
    let c = store.create_point().unwrap();
    store.update(a, b, c).unwrap();
    store.update(b, c, a).unwrap();
    store.update(c, a, b).unwrap();
    assert_eq!(
        deep_format(&store, a, |_: &Link| false, false, false, false),
        Ok(format!("((({} {}) {}) {})", a, b, a, c))
    );
    assert_eq!(
        deep_format(&store, a, |_: &Link| false, false, false, true),
        Ok(format!("(((*{} *{}) *{}) *{})", a, b, a, c))
    );
    assert_eq!(
        deep_format(&store, a, |_: &Link| false, false, true, false),
        Ok(format!("({}: ({}: ({}: {} {}) {}) {})", a, b, c, a, b, a, c))
    );
}

#[test]
fn cycle_of_two_is_cut_at_the_revisit() {
    let mut store = new_store();
    let a = store.create_point().unwrap();
    let b = store.create_point().unwrap();
    store.update(a, b, a).unwrap();
    store.update(b, a, b).unwrap();
    assert_eq!(
        deep_format(&store, a, |_: &Link| false, false, false, false),
        Ok(format!("(({} {}) {})", a, b, a))
    );
    assert_eq!(
        deep_format(&store, a, |_: &Link| false, false, false, true),
        Ok(format!("((*{} *{}) *{})", a, b, a))
    );
}

#[test]
fn point_that_is_no_element_renders_its_own_index() {
    let mut store = new_store();
    let p = store.create_point().unwrap();
    assert_eq!(
        deep_format(&store, p, |_: &Link| false, false, false, false),
        Ok(format!("({} {})", p, p))
    );
    assert_eq!(
        deep_format(&store, p, |_: &Link| false, true, false, false),
        Ok(format!("({} {})", p, p))
    );
    assert_eq!(
        deep_format(&store, p, |_: &Link| false, true, true, true),
        Ok(format!("({}: *{} *{})", p, p, p))
    );
}

#[test]
fn shared_structure_collapses_unless_visited_are_rendered() {
    let mut store = new_store();
    let x = store.create_point().unwrap();
    let y = store.create_point().unwrap();
    let xy = store.get_or_create(x, y).unwrap();
    let twice = store.get_or_create(xy, xy).unwrap();
    let is_point = |l: &Link| l.is_full();
    assert_eq!(
        deep_format(&store, twice, is_point, false, false, false),
        Ok(format!("(({} {}) {})", x, y, xy))
    );
    assert_eq!(
        deep_format(&store, twice, is_point, false, false, true),
        Ok(format!("(({} {}) *{})", x, y, xy))
    );
    assert_eq!(
        deep_format(&store, twice, is_point, true, false, false),
        Ok(format!("(({} {}) ({} {}))", x, y, x, y))
    );
    assert_eq!(
        deep_format(&store, twice, is_point, true, false, true),
        Ok(format!("(({} {}) (*{} *{}))", x, y, x, y))
    );
    assert_eq!(
        deep_format(&store, twice, is_point, true, true, false),
        Ok(format!("({}: ({}: {} {}) ({}: {} {}))", twice, xy, x, y, xy, x, y))
    );
}

#[test]
fn sentinel_fields_leave_their_place_empty() {
    let mut store = new_store();
    let x = store.create_point().unwrap();
    let itself = store.constants().itself;
    let link = store.get_or_create(x, itself).unwrap();
    assert_eq!(
        deep_format(&store, link, |l: &Link| l.is_full(), false, false, false),
        Ok(format!("({} )", x))
    );
}

#[test]
fn rendering_twice_starts_afresh() {
    let mut store = new_store();
    let x = store.create_point().unwrap();
    let y = store.create_point().unwrap();
    let xy = store.get_or_create(x, y).unwrap();
    let first = deep_format(&store, xy, |l: &Link| l.is_full(), false, false, true);
    let second = deep_format(&store, xy, |l: &Link| l.is_full(), false, false, true);
    assert_eq!(first, Ok(format!("({} {})", x, y)));
    assert_eq!(first, second);
}

#[test]
fn bounded_rendering_needs_one_level_for_each_nesting() {
    let mut store = new_store();
    let x = store.create_point().unwrap();
    let y = store.create_point().unwrap();
    let xy = store.get_or_create(x, y).unwrap();
    let twice = store.get_or_create(xy, xy).unwrap();
    let is_point = |l: &Link| l.is_full();
    assert_eq!(
        deep_format_within(&store, x, is_point, true, false, false, 0),
        Some(x.to_string())
    );
    assert_eq!(deep_format_within(&store, xy, is_point, true, false, false, 0), None);
    assert_eq!(
        deep_format_within(&store, xy, is_point, true, false, false, 1),
        Some(format!("({} {})", x, y))
    );
    assert_eq!(deep_format_within(&store, twice, is_point, true, false, false, 1), None);
    assert_eq!(
        deep_format_within(&store, twice, is_point, true, false, false, 2),
        Some(format!("(({} {}) ({} {}))", x, y, x, y))
    );
    assert_eq!(
        deep_format_within(&store, twice, is_point, false, false, false, store.count()),
        deep_format(&store, twice, is_point, false, false, false).ok()
    );
}

#[test]
fn bounded_rendering_gives_up_on_a_cycle() {
    let mut store = new_store();
    let a = store.create_point().unwrap();
    let b = store.create_point().unwrap();
    store.update(a, b, a).unwrap();
    store.update(b, a, b).unwrap();
    let limit = store.count();
    assert_eq!(deep_format_within(&store, a, |_: &Link| false, true, false, false, limit), None);
    assert_eq!(deep_format_within(&store, a, |_: &Link| false, true, false, false, 1000), None);
    assert_eq!(
        deep_format_within(&store, a, |_: &Link| false, false, false, false, limit),
        Some(format!("(({} {}) {})", a, b, a))
    );
}

#[test]
fn bounded_rendering_skips_sentinels_and_missing_links() {
    let mut store = new_store();
    let x = store.create_point().unwrap();
    let any = store.constants().any;
    assert_eq!(
        deep_format_within(&store, any, |_: &Link| false, true, true, true, 0),
        Some(String::new())
    );
    assert_eq!(
        deep_format_within(&store, x + 3, |_: &Link| false, true, true, true, 0),
        Some(format!("~{}", x + 3))
    );
}

#[test]
fn renderings_are_balanced() {
    let mut store = new_store();
    let x = store.create_point().unwrap();
    let y = store.create_point().unwrap();
    let roots = all_seq_variants(&mut store, &[x, y, y, x, y]).unwrap();
    for root in roots {
        for flags in 0..8 {
            let with_index = flags & 2 != 0;
            let text = deep_format(
                &store,
                root,
                |l: &Link| l.is_full(),
                flags & 1 != 0,
                with_index,
                flags & 4 != 0,
            )
            .unwrap();
            let opened = text.matches('(').count();
            assert!(opened >= 1);
            assert_eq!(text.matches(')').count(), opened);
            assert_eq!(text.matches(' ').count(), if with_index { 2 * opened } else { opened });
            assert_eq!(text.matches(':').count(), if with_index { opened } else { 0 });
        }
    }
}

use history_filter::filter::members::{
    dedup_members, dst_path_of, precedes, remove_all, remove_members, src_path_of,
};
use history_filter::filter::opt::{
    common_post, common_pre, converged, group, iterate, last_chain, optimize, prefix_sort,
    simplify, step, Optimizer,
};
use history_filter::filter::rules::{ROUND_LIMIT, STEP_LIMIT};
use history_filter::filter::store::{Filter, Op};
use history_filter::path::Path;

fn path(text: &str) -> Path {
    Path::from_segments(
        text.split('/')
            .filter(|s| !s.is_empty())
            .map(|s| s.as_bytes().to_vec())
            .collect(),
    )
}

fn text(p: &Path) -> String {
    p.segments
        .iter()
        .map(|s| String::from_utf8(s.clone()).unwrap())
        .collect::<Vec<String>>()
        .join("/")
}

/// Identity `id`, empty `empty`, subdirectory `/a/b`, prefix `+a/b`,
/// chain `(x > y)`, composition `[x, y]`, subtraction `(x - y)`.
fn show(ctx: &Optimizer, f: Filter) -> String {
    match ctx.resolve(f) {
        Op::Identity => "id".to_string(),
        Op::Empty => "empty".to_string(),
        Op::Subdir(p) => format!("/{}", text(&p)),
        Op::Prefix(p) => format!("+{}", text(&p)),
        Op::Chain(a, b) => format!("({} > {})", show(ctx, a), show(ctx, b)),
        Op::Compose(fs) => format!("[{}]", show_all(ctx, &fs)),
        Op::Subtract(a, b) => format!("({} - {})", show(ctx, a), show(ctx, b)),
    }
}

fn show_all(ctx: &Optimizer, fs: &Vec<Filter>) -> String {
    fs.iter()
        .map(|m| show(ctx, *m))
        .collect::<Vec<String>>()
        .join(", ")
}

fn sub(ctx: &mut Optimizer, p: &str) -> Filter {
    ctx.intern(Op::Subdir(path(p)))
}

fn pre(ctx: &mut Optimizer, p: &str) -> Filter {
    ctx.intern(Op::Prefix(path(p)))
}

fn identity(ctx: &mut Optimizer) -> Filter {
    ctx.intern(Op::Identity)
}

fn empty(ctx: &mut Optimizer) -> Filter {
    ctx.intern(Op::Empty)
}

fn chain(ctx: &mut Optimizer, a: Filter, b: Filter) -> Filter {
    ctx.intern(Op::Chain(a, b))
}

fn compose(ctx: &mut Optimizer, fs: Vec<Filter>) -> Filter {
    ctx.intern(Op::Compose(fs))
}

fn subtract(ctx: &mut Optimizer, a: Filter, b: Filter) -> Filter {
    ctx.intern(Op::Subtract(a, b))
}

/// Subdirectory `s` chained with prefix `p`.
fn moved(ctx: &mut Optimizer, s: &str, p: &str) -> Filter {
    let a = sub(ctx, s);
    let b = pre(ctx, p);
    chain(ctx, a, b)
}

fn stepped(ctx: &mut Optimizer, f: Filter) -> String {
    let r = step(ctx, f);
    show(ctx, r)
}

fn iterated(ctx: &mut Optimizer, f: Filter) -> String {
    let r = iterate(ctx, f);
    show(ctx, r)
}

fn optimized(ctx: &mut Optimizer, f: Filter) -> String {
    let r = optimize(ctx, f);
    show(ctx, r)
}

#[test]
fn new_optimizer_holds_nothing() {
    let ctx = Optimizer::new();
    assert_eq!(ctx.store.len(), 0);
    assert!(ctx.store.index.is_empty());
    assert!(ctx.simplified.entries.is_empty());
    assert!(ctx.stepped.entries.is_empty());
    assert!(ctx.optimized.entries.is_empty());
    for id in [0, 1, 7] {
        let f = Filter { id };
        assert_eq!(ctx.simplified.get(f), None);
        assert_eq!(ctx.stepped.get(f), None);
        assert_eq!(ctx.optimized.get(f), None);
    }
}

#[test]
fn limits_are_one_thousand() {
    assert_eq!(STEP_LIMIT, 1000);
    assert_eq!(ROUND_LIMIT, 1000);
}

#[test]
fn last_chain_splits_off_the_last_link() {
    let mut ctx = Optimizer::new();
    let i = identity(&mut ctx);
    let a = sub(&mut ctx, "a");
    let b = sub(&mut ctx, "b");
    let c = pre(&mut ctx, "c");
    let bc = chain(&mut ctx, b, c);
    let abc = chain(&mut ctx, a, bc);
    let (rest, last) = last_chain(&mut ctx.store, i, abc);
    assert_eq!(show(&ctx, rest), "((id > /a) > /b)");
    assert_eq!(last, c);
    let (rest, last) = last_chain(&mut ctx.store, i, a);
    assert_eq!(rest, i);
    assert_eq!(last, a);
    let (rest, last) = last_chain(&mut ctx.store, a, bc);
    assert_eq!(show(&ctx, rest), "(/a > /b)");
    assert_eq!(last, c);
}

#[test]
fn last_chain_follows_only_the_second_operand() {
    let mut ctx = Optimizer::new();
    let i = identity(&mut ctx);
    let a = sub(&mut ctx, "a");
    let b = sub(&mut ctx, "b");
    let c = pre(&mut ctx, "c");
    let ab = chain(&mut ctx, a, b);
    let f = chain(&mut ctx, ab, c);
    let (rest, last) = last_chain(&mut ctx.store, i, f);
    assert_eq!(show(&ctx, rest), "(id > (/a > /b))");
    assert_eq!(last, c);
}

#[test]
fn common_pre_factors_the_shared_leading_filter() {
    let mut ctx = Optimizer::new();
    let a = sub(&mut ctx, "a");
    let b = sub(&mut ctx, "b");
    let c = sub(&mut ctx, "c");
    let ab = chain(&mut ctx, a, b);
    let ac = chain(&mut ctx, a, c);
    assert_eq!(common_pre(&ctx.store, &vec![ab, ac]), Some((a, vec![b, c])));
    assert_eq!(common_pre(&ctx.store, &vec![ab]), Some((a, vec![b])));
}

#[test]
fn common_pre_needs_chains_with_one_head() {
    let mut ctx = Optimizer::new();
    let a = sub(&mut ctx, "a");
    let b = sub(&mut ctx, "b");
    let c = sub(&mut ctx, "c");
    let ab = chain(&mut ctx, a, b);
    let bc = chain(&mut ctx, b, c);
    assert_eq!(common_pre(&ctx.store, &vec![]), None);
    assert_eq!(common_pre(&ctx.store, &vec![ab, bc]), None);
    assert_eq!(common_pre(&ctx.store, &vec![ab, a]), None);
    assert_eq!(common_pre(&ctx.store, &vec![a, ab]), None);
    assert_eq!(common_pre(&ctx.store, &vec![a]), None);
}

#[test]
fn common_post_factors_the_shared_last_link() {
    let mut ctx = Optimizer::new();
    let ax = moved(&mut ctx, "a", "x");
    let bx = moved(&mut ctx, "b", "x");
    let x = pre(&mut ctx, "x");
    let (common, rest) = common_post(&mut ctx.store, &vec![ax, bx]).unwrap();
    assert_eq!(common, x);
    assert_eq!(show_all(&ctx, &rest), "(id > /a), (id > /b)");
}

#[test]
fn common_post_treats_a_plain_filter_as_its_own_last_link() {
    let mut ctx = Optimizer::new();
    let ax = moved(&mut ctx, "a", "x");
    let x = pre(&mut ctx, "x");
    let (common, rest) = common_post(&mut ctx.store, &vec![ax, x]).unwrap();
    assert_eq!(common, x);
    assert_eq!(show_all(&ctx, &rest), "(id > /a), id");
}

#[test]
fn common_post_needs_one_last_link_that_is_not_the_identity() {
    let mut ctx = Optimizer::new();
    let i = identity(&mut ctx);
    let a = sub(&mut ctx, "a");
    let ax = moved(&mut ctx, "a", "x");
    let by = moved(&mut ctx, "b", "y");
    let ai = chain(&mut ctx, a, i);
    assert_eq!(common_post(&mut ctx.store, &vec![]), None);
    assert_eq!(common_post(&mut ctx.store, &vec![ax, by]), None);
    assert_eq!(common_post(&mut ctx.store, &vec![i, i]), None);
    assert_eq!(common_post(&mut ctx.store, &vec![ai, i]), None);
}

#[test]
fn group_joins_neighbours_with_one_head() {
    let mut ctx = Optimizer::new();
    let a = sub(&mut ctx, "a");
    let b = sub(&mut ctx, "b");
    let c = sub(&mut ctx, "c");
    let d = sub(&mut ctx, "d");
    let ab = chain(&mut ctx, a, b);
    let ac = chain(&mut ctx, a, c);
    let dc = chain(&mut ctx, d, c);
    assert_eq!(
        group(&mut ctx.store, &vec![ab, ac, dc]),
        vec![vec![ab, ac], vec![dc]]
    );
    // Only neighbours are joined.
    assert_eq!(
        group(&mut ctx.store, &vec![ab, dc, ac, ab]),
        vec![vec![ab], vec![dc], vec![ac, ab]]
    );
}

#[test]
fn group_falls_back_to_the_last_link() {
    let mut ctx = Optimizer::new();
    let ax = moved(&mut ctx, "a", "x");
    let bx = moved(&mut ctx, "b", "x");
    let cy = moved(&mut ctx, "c", "y");
    assert_eq!(
        group(&mut ctx.store, &vec![ax, bx, cy]),
        vec![vec![ax, bx], vec![cy]]
    );
}

#[test]
fn group_leaves_unrelated_members_alone() {
    let mut ctx = Optimizer::new();
    let ax = moved(&mut ctx, "a", "x");
    let by = moved(&mut ctx, "b", "y");
    let c = sub(&mut ctx, "c");
    assert_eq!(
        group(&mut ctx.store, &vec![ax, by, c]),
        vec![vec![ax], vec![by], vec![c]]
    );
    assert_eq!(group(&mut ctx.store, &vec![]), Vec::<Vec<Filter>>::new());
    assert_eq!(group(&mut ctx.store, &vec![c]), vec![vec![c]]);
}

#[test]
fn source_and_destination_paths_follow_chains() {
    let mut ctx = Optimizer::new();
    let a = sub(&mut ctx, "a/b");
    let c = sub(&mut ctx, "c");
    let x = pre(&mut ctx, "x");
    let y = pre(&mut ctx, "y/z");
    let ac = chain(&mut ctx, a, c);
    let xy = chain(&mut ctx, x, y);
    let f = chain(&mut ctx, ac, xy);
    let k = compose(&mut ctx, vec![a, x]);
    let i = identity(&mut ctx);
    assert_eq!(text(&src_path_of(&ctx.store, a)), "a/b");
    assert_eq!(text(&dst_path_of(&ctx.store, a)), "");
    assert_eq!(text(&src_path_of(&ctx.store, x)), "");
    assert_eq!(text(&dst_path_of(&ctx.store, y)), "y/z");
    assert_eq!(text(&src_path_of(&ctx.store, ac)), "a/b/c");
    assert_eq!(text(&dst_path_of(&ctx.store, xy)), "y/z/x");
    assert_eq!(text(&src_path_of(&ctx.store, f)), "a/b/c");
    assert_eq!(text(&dst_path_of(&ctx.store, f)), "y/z/x");
    assert_eq!(text(&src_path_of(&ctx.store, k)), "");
    assert_eq!(text(&dst_path_of(&ctx.store, k)), "");
    assert_eq!(text(&src_path_of(&ctx.store, i)), "");
}

#[test]
fn precedes_orders_by_source_path_when_nothing_overlaps() {
    let mut ctx = Optimizer::new();
    let ax = moved(&mut ctx, "a", "x");
    let by = moved(&mut ctx, "b", "y");
    assert!(precedes(&ctx.store, ax, by));
    assert!(!precedes(&ctx.store, by, ax));
    assert!(!precedes(&ctx.store, ax, ax));
}

#[test]
fn precedes_never_orders_members_with_related_paths() {
    let mut ctx = Optimizer::new();
    let ax = moved(&mut ctx, "a", "x");
    let abx = moved(&mut ctx, "a/b", "y");
    let cx = moved(&mut ctx, "c", "x/y");
    let a = sub(&mut ctx, "a");
    let b = sub(&mut ctx, "b");
    // Source paths a and a/b are related.
    assert!(!precedes(&ctx.store, ax, abx));
    assert!(!precedes(&ctx.store, abx, ax));
    // Destination paths x and x/y are related.
    assert!(!precedes(&ctx.store, ax, cx));
    assert!(!precedes(&ctx.store, cx, ax));
    // Both destinations are empty, hence related.
    assert!(!precedes(&ctx.store, a, b));
    assert!(!precedes(&ctx.store, b, a));
}

#[test]
fn prefix_sort_orders_unrelated_members_by_source_path() {
    let mut ctx = Optimizer::new();
    let ax = moved(&mut ctx, "a", "x");
    let by = moved(&mut ctx, "b", "y");
    let cz = moved(&mut ctx, "c", "z");
    assert_eq!(prefix_sort(&ctx.store, &vec![cz, ax, by]), vec![ax, by, cz]);
    assert_eq!(prefix_sort(&ctx.store, &vec![ax, by, cz]), vec![ax, by, cz]);
    assert_eq!(prefix_sort(&ctx.store, &vec![cz, by, ax]), vec![ax, by, cz]);
    assert_eq!(prefix_sort(&ctx.store, &vec![]), vec![]);
}

#[test]
fn prefix_sort_keeps_related_members_in_place() {
    let mut ctx = Optimizer::new();
    let bx = moved(&mut ctx, "b", "x");
    let axy = moved(&mut ctx, "a", "x/y");
    let a = sub(&mut ctx, "a");
    let b = sub(&mut ctx, "b");
    assert_eq!(prefix_sort(&ctx.store, &vec![bx, axy]), vec![bx, axy]);
    assert_eq!(prefix_sort(&ctx.store, &vec![b, a]), vec![b, a]);
}

#[test]
fn prefix_sort_does_not_move_a_member_past_a_related_one() {
    let mut ctx = Optimizer::new();
    let cz = moved(&mut ctx, "c", "z");
    let cdw = moved(&mut ctx, "c/d", "w");
    let ax = moved(&mut ctx, "a", "x");
    // a sorts before c/d and moves past it, but stops behind c only if it
    // is not ordered before c; it is, so it moves to the front.
    assert_eq!(prefix_sort(&ctx.store, &vec![cz, cdw, ax]), vec![ax, cz, cdw]);
    // b moves before c. Then a moves past c, but not past b, whose
    // destination x is related to its own.
    let bx = moved(&mut ctx, "b", "x");
    assert_eq!(prefix_sort(&ctx.store, &vec![cz, bx, ax]), vec![bx, ax, cz]);
}

#[test]
fn list_helpers_drop_what_they_should() {
    let mut ctx = Optimizer::new();
    let a = sub(&mut ctx, "a");
    let b = sub(&mut ctx, "b");
    let c = sub(&mut ctx, "c");
    assert_eq!(dedup_members(&ctx.store, &vec![a, a, b, a, c, c, c]), vec![a, b, c]);
    assert_eq!(dedup_members(&ctx.store, &vec![a, b, a]), vec![a, b]);
    assert_eq!(dedup_members(&ctx.store, &vec![c, b, a, b, c]), vec![c, b, a]);
    assert_eq!(dedup_members(&ctx.store, &vec![]), vec![]);
    assert_eq!(remove_all(&ctx.store, &vec![a, b, a, c], a), vec![b, c]);
    assert_eq!(remove_all(&ctx.store, &vec![a, a], a), vec![]);
    assert_eq!(remove_all(&ctx.store, &vec![b, c], a), vec![b, c]);
    assert_eq!(remove_members(&ctx.store, &vec![a, b, c, a], &vec![a, c]), vec![b]);
    assert_eq!(remove_members(&ctx.store, &vec![a, b], &vec![]), vec![a, b]);
    assert_eq!(remove_members(&ctx.store, &vec![a, b], &vec![c]), vec![a, b]);
}

#[test]
fn step_leaves_base_cases_alone() {
    let mut ctx = Optimizer::new();
    let i = identity(&mut ctx);
    let e = empty(&mut ctx);
    let a = sub(&mut ctx, "a");
    let p = pre(&mut ctx, "p");
    let none = sub(&mut ctx, "");
    assert_eq!(step(&mut ctx, i), i);
    assert_eq!(step(&mut ctx, e), e);
    assert_eq!(step(&mut ctx, a), a);
    assert_eq!(step(&mut ctx, p), p);
    assert_eq!(step(&mut ctx, none), none);
}

#[test]
fn step_splits_a_subdirectory_first_segment_first() {
    let mut ctx = Optimizer::new();
    let f = sub(&mut ctx, "a/b/c");
    assert_eq!(stepped(&mut ctx, f), "(/a > /b/c)");
    let g = sub(&mut ctx, "a/b");
    assert_eq!(stepped(&mut ctx, g), "(/a > /b)");
}

#[test]
fn step_splits_a_prefix_first_segment_last() {
    let mut ctx = Optimizer::new();
    let f = pre(&mut ctx, "a/b/c");
    assert_eq!(stepped(&mut ctx, f), "(+b/c > +a)");
    let g = pre(&mut ctx, "a/b");
    assert_eq!(stepped(&mut ctx, g), "(+b > +a)");
}

#[test]
fn step_collapses_small_compositions() {
    let mut ctx = Optimizer::new();
    let none = compose(&mut ctx, vec![]);
    assert_eq!(stepped(&mut ctx, none), "empty");
    let a = sub(&mut ctx, "a/b");
    let one = compose(&mut ctx, vec![a]);
    assert_eq!(step(&mut ctx, one), a);
}

#[test]
fn step_drops_repeated_neighbours_and_empty_members() {
    let mut ctx = Optimizer::new();
    let a = sub(&mut ctx, "a");
    let b = pre(&mut ctx, "b");
    let e = empty(&mut ctx);
    let f = compose(&mut ctx, vec![a, a, e, b]);
    assert_eq!(stepped(&mut ctx, f), "[/a, +b]");
    let g = compose(&mut ctx, vec![e, e]);
    assert_eq!(stepped(&mut ctx, g), "[]");
}

#[test]
fn step_drops_repeated_members_that_are_not_neighbours() {
    let mut ctx = Optimizer::new();
    let a = sub(&mut ctx, "a");
    let b = sub(&mut ctx, "b");
    let f = compose(&mut ctx, vec![a, b, a]);
    let expected = compose(&mut ctx, vec![a, b]);
    assert_eq!(step(&mut ctx, f), expected);
    let c = pre(&mut ctx, "c");
    let g = compose(&mut ctx, vec![c, a, b, a, c, b]);
    assert_eq!(stepped(&mut ctx, g), "[+c, /a, /b]");
}

#[test]
fn step_factors_the_last_link_even_of_a_single_remaining_member() {
    let mut ctx = Optimizer::new();
    let a = sub(&mut ctx, "a");
    let e = empty(&mut ctx);
    let f = compose(&mut ctx, vec![a, e]);
    assert_eq!(stepped(&mut ctx, f), "([id] > /a)");
    assert_eq!(iterated(&mut ctx, f), "/a");
}

#[test]
fn step_factors_a_common_leading_filter() {
    let mut ctx = Optimizer::new();
    let a = sub(&mut ctx, "a");
    let b = sub(&mut ctx, "b");
    let c = sub(&mut ctx, "c");
    let ab = chain(&mut ctx, a, b);
    let ac = chain(&mut ctx, a, c);
    let f = compose(&mut ctx, vec![ab, ac]);
    assert_eq!(stepped(&mut ctx, f), "(/a > [/b, /c])");
}

#[test]
fn step_factors_a_common_last_link() {
    let mut ctx = Optimizer::new();
    let ax = moved(&mut ctx, "a", "x");
    let bx = moved(&mut ctx, "b", "x");
    let f = compose(&mut ctx, vec![ax, bx]);
    assert_eq!(stepped(&mut ctx, f), "([(id > /a), (id > /b)] > +x)");
}

#[test]
fn step_prefers_the_leading_filter_over_the_last_link() {
    let mut ctx = Optimizer::new();
    let a = sub(&mut ctx, "a");
    let x = pre(&mut ctx, "x");
    let b = sub(&mut ctx, "b");
    let bx = chain(&mut ctx, b, x);
    let abx = chain(&mut ctx, a, bx);
    let ax = chain(&mut ctx, a, x);
    let f = compose(&mut ctx, vec![abx, ax]);
    assert_eq!(stepped(&mut ctx, f), "(/a > [(/b > +x), +x])");
}

#[test]
fn step_groups_neighbours() {
    let mut ctx = Optimizer::new();
    let a = sub(&mut ctx, "a");
    let b = sub(&mut ctx, "b");
    let c = sub(&mut ctx, "c");
    let d = sub(&mut ctx, "d");
    let e = sub(&mut ctx, "e");
    let ab = chain(&mut ctx, a, b);
    let ac = chain(&mut ctx, a, c);
    let de = chain(&mut ctx, d, e);
    let f = compose(&mut ctx, vec![ab, ac, de]);
    assert_eq!(stepped(&mut ctx, f), "[[(/a > /b), (/a > /c)], [(/d > /e)]]");
}

#[test]
fn step_sorts_and_steps_members_when_nothing_else_applies() {
    let mut ctx = Optimizer::new();
    let by = moved(&mut ctx, "b/c", "y");
    let ax = moved(&mut ctx, "a", "x");
    let f = compose(&mut ctx, vec![by, ax]);
    assert_eq!(stepped(&mut ctx, f), "[(/a > +x), ((/b > /c) > +y)]");
}

#[test]
fn step_makes_chains_lean_right() {
    let mut ctx = Optimizer::new();
    let a = sub(&mut ctx, "a");
    let b = sub(&mut ctx, "b");
    let c = sub(&mut ctx, "c");
    let ab = chain(&mut ctx, a, b);
    let f = chain(&mut ctx, ab, c);
    assert_eq!(stepped(&mut ctx, f), "(/a > (/b > /c))");
}

#[test]
fn step_drops_an_identity_operand() {
    let mut ctx = Optimizer::new();
    let i = identity(&mut ctx);
    let a = sub(&mut ctx, "a/b");
    let left = chain(&mut ctx, i, a);
    let right = chain(&mut ctx, a, i);
    let both = chain(&mut ctx, i, i);
    assert_eq!(step(&mut ctx, left), a);
    assert_eq!(step(&mut ctx, right), a);
    assert_eq!(step(&mut ctx, both), i);
}

#[test]
fn step_leans_right_before_it_drops_an_identity() {
    let mut ctx = Optimizer::new();
    let i = identity(&mut ctx);
    let a = sub(&mut ctx, "a");
    let b = sub(&mut ctx, "b");
    let ab = chain(&mut ctx, a, b);
    let f = chain(&mut ctx, ab, i);
    assert_eq!(stepped(&mut ctx, f), "(/a > (/b > id))");
}

#[test]
fn step_steps_both_operands_of_a_chain() {
    let mut ctx = Optimizer::new();
    let f = moved(&mut ctx, "a/b", "c/d");
    assert_eq!(stepped(&mut ctx, f), "((/a > /b) > (+d > +c))");
}

#[test]
fn step_subtraction_of_equal_or_empty_operands() {
    let mut ctx = Optimizer::new();
    let e = empty(&mut ctx);
    let a = sub(&mut ctx, "a/b");
    let b = sub(&mut ctx, "b");
    let same = subtract(&mut ctx, a, a);
    let from_empty = subtract(&mut ctx, e, b);
    let of_empty = subtract(&mut ctx, a, e);
    assert_eq!(step(&mut ctx, same), e);
    assert_eq!(step(&mut ctx, from_empty), e);
    assert_eq!(step(&mut ctx, of_empty), a);
}

#[test]
fn step_pushes_subtraction_past_a_shared_head() {
    let mut ctx = Optimizer::new();
    let a = sub(&mut ctx, "a");
    let b = sub(&mut ctx, "b");
    let c = sub(&mut ctx, "c");
    let ab = chain(&mut ctx, a, b);
    let ac = chain(&mut ctx, a, c);
    let f = subtract(&mut ctx, ab, ac);
    assert_eq!(stepped(&mut ctx, f), "(/a > (/b - /c))");
}

#[test]
fn step_factors_a_shared_last_link_out_of_a_subtraction() {
    let mut ctx = Optimizer::new();
    let ax = moved(&mut ctx, "a", "x");
    let bx = moved(&mut ctx, "b", "x");
    let f = subtract(&mut ctx, ax, bx);
    assert_eq!(stepped(&mut ctx, f), "(((id > /a) - (id > /b)) > +x)");
}

#[test]
fn step_removes_a_subtracted_member_from_a_composition() {
    let mut ctx = Optimizer::new();
    let a = sub(&mut ctx, "a");
    let b = sub(&mut ctx, "b");
    let c = sub(&mut ctx, "c");
    let abc = compose(&mut ctx, vec![a, b, c]);
    let f = subtract(&mut ctx, abc, b);
    assert_eq!(stepped(&mut ctx, f), "[/a, /c]");
    let ab = compose(&mut ctx, vec![a, b]);
    let g = subtract(&mut ctx, ab, b);
    assert_eq!(stepped(&mut ctx, g), "/a");
}

#[test]
fn step_subtracting_a_superset_gives_empty() {
    let mut ctx = Optimizer::new();
    let a = sub(&mut ctx, "a");
    let b = sub(&mut ctx, "b");
    let ab = compose(&mut ctx, vec![a, b]);
    let f = subtract(&mut ctx, a, ab);
    assert_eq!(stepped(&mut ctx, f), "empty");
}

#[test]
fn step_subtracts_compositions_member_by_member() {
    let mut ctx = Optimizer::new();
    let a = sub(&mut ctx, "a");
    let b = sub(&mut ctx, "b");
    let c = sub(&mut ctx, "c");
    let d = sub(&mut ctx, "d");
    let abc = compose(&mut ctx, vec![a, b, c]);
    let bd = compose(&mut ctx, vec![b, d]);
    let f = subtract(&mut ctx, abc, bd);
    assert_eq!(stepped(&mut ctx, f), "([/a, /c] - /d)");
}

#[test]
fn step_steps_both_operands_of_a_subtraction() {
    let mut ctx = Optimizer::new();
    let a = sub(&mut ctx, "a/b");
    let c = sub(&mut ctx, "c/d");
    let f = subtract(&mut ctx, a, c);
    assert_eq!(stepped(&mut ctx, f), "((/a > /b) - (/c > /d))");
}

#[test]
fn step_is_memoized() {
    let mut ctx = Optimizer::new();
    let f = moved(&mut ctx, "a/b", "c/d");
    let first = step(&mut ctx, f);
    let nodes = ctx.store.len();
    let second = step(&mut ctx, f);
    assert_eq!(first, second);
    assert_eq!(ctx.store.len(), nodes);
    assert_eq!(ctx.stepped.get(f), Some(first));
}

#[test]
fn iterate_steps_until_nothing_changes() {
    let mut ctx = Optimizer::new();
    let f = sub(&mut ctx, "a/b/c");
    assert_eq!(iterated(&mut ctx, f), "(/a > (/b > /c))");
    let r = iterate(&mut ctx, f);
    assert_eq!(step(&mut ctx, r), r);
    let g = pre(&mut ctx, "a/b/c");
    assert_eq!(iterated(&mut ctx, g), "(+c > (+b > +a))");
}

#[test]
fn converged_tells_whether_a_step_changes_the_filter() {
    let mut ctx = Optimizer::new();
    let a = sub(&mut ctx, "a");
    let ab = sub(&mut ctx, "a/b");
    assert!(converged(&mut ctx, a));
    assert!(!converged(&mut ctx, ab));
    let r = iterate(&mut ctx, ab);
    assert!(converged(&mut ctx, r));
}

#[test]
fn converged_is_false_after_iterate_was_cut_short() {
    let mut ctx = Optimizer::new();
    let i = identity(&mut ctx);
    let ax = moved(&mut ctx, "a", "x");
    let by = moved(&mut ctx, "b", "y");
    let axi = chain(&mut ctx, ax, i);
    let byi = chain(&mut ctx, by, i);
    let f = compose(&mut ctx, vec![axi, byi]);
    let r = iterate(&mut ctx, f);
    assert!(!converged(&mut ctx, r));
}

#[test]
fn iterate_leaves_a_settled_filter_alone() {
    let mut ctx = Optimizer::new();
    let a = sub(&mut ctx, "a");
    assert_eq!(iterate(&mut ctx, a), a);
}

#[test]
fn iterate_removes_an_identity_at_the_end_of_a_chain() {
    let mut ctx = Optimizer::new();
    let i = identity(&mut ctx);
    let a = sub(&mut ctx, "a");
    let b = sub(&mut ctx, "b");
    let ab = chain(&mut ctx, a, b);
    let f = chain(&mut ctx, ab, i);
    assert_eq!(iterated(&mut ctx, f), "(/a > /b)");
}

#[test]
fn optimize_identity_laws() {
    let mut ctx = Optimizer::new();
    let i = identity(&mut ctx);
    for f in [sub(&mut ctx, "a"), pre(&mut ctx, "p"), identity(&mut ctx), empty(&mut ctx)] {
        let left = chain(&mut ctx, i, f);
        let right = chain(&mut ctx, f, i);
        assert_eq!(optimize(&mut ctx, left), f);
        assert_eq!(optimize(&mut ctx, right), f);
        assert_eq!(optimize(&mut ctx, f), f);
    }
}

#[test]
fn optimize_left_identity_on_a_composition() {
    let mut ctx = Optimizer::new();
    let i = identity(&mut ctx);
    let ax = moved(&mut ctx, "a/b", "x");
    let by = moved(&mut ctx, "a/c", "y");
    let f = compose(&mut ctx, vec![ax, by]);
    let left = chain(&mut ctx, i, f);
    let plain = optimize(&mut ctx, f);
    assert_eq!(optimize(&mut ctx, left), plain);
}

#[test]
fn iterate_stops_at_the_step_limit_when_steps_alternate() {
    let mut ctx = Optimizer::new();
    let i = identity(&mut ctx);
    let ax = moved(&mut ctx, "a", "x");
    let by = moved(&mut ctx, "b", "y");
    let axi = chain(&mut ctx, ax, i);
    let byi = chain(&mut ctx, by, i);
    // Both members end in the identity: they are grouped by that last
    // link, and the group of all members is unwrapped again.
    let f = compose(&mut ctx, vec![axi, byi]);
    let wrapped = compose(&mut ctx, vec![f]);
    assert_eq!(step(&mut ctx, f), wrapped);
    assert_eq!(step(&mut ctx, wrapped), f);
    // An even number of steps ends where it began.
    assert_eq!(STEP_LIMIT % 2, 0);
    assert_eq!(iterate(&mut ctx, f), f);
    assert_eq!(iterate(&mut ctx, wrapped), wrapped);
}

#[test]
fn optimize_right_identity_on_a_composition_does_not_settle() {
    let mut ctx = Optimizer::new();
    let i = identity(&mut ctx);
    let ax = moved(&mut ctx, "a/b", "x");
    let by = moved(&mut ctx, "a/c", "y");
    let f = compose(&mut ctx, vec![ax, by]);
    let right = chain(&mut ctx, f, i);
    assert_eq!(
        optimized(&mut ctx, right),
        "[((/a/b > +x) > id), ((/a/c > +y) > id)]"
    );
    assert_eq!(optimized(&mut ctx, f), "(/a > [(/b > +x), (/c > +y)])");
}

#[test]
fn optimize_self_subtraction_is_empty() {
    let mut ctx = Optimizer::new();
    let e = empty(&mut ctx);
    let a = sub(&mut ctx, "a/b");
    let b = pre(&mut ctx, "x");
    let ab = chain(&mut ctx, a, b);
    let k = compose(&mut ctx, vec![ab, a, b]);
    let nested = chain(&mut ctx, a, k);
    let s = subtract(&mut ctx, k, a);
    for f in [e, a, b, ab, k, nested, s] {
        let ff = subtract(&mut ctx, f, f);
        assert_eq!(optimize(&mut ctx, ff), e);
    }
}

#[test]
fn optimize_chain_of_subdirectories() {
    let mut ctx = Optimizer::new();
    let a = sub(&mut ctx, "a");
    let b = sub(&mut ctx, "b");
    let f = chain(&mut ctx, a, b);
    let merged = sub(&mut ctx, "a/b");
    // The optimized form is the chain of single segments; its simplified
    // form is the merged subdirectory.
    assert_eq!(optimized(&mut ctx, f), "(/a > /b)");
    assert_eq!(optimize(&mut ctx, merged), f);
    let r = optimize(&mut ctx, f);
    assert_eq!(simplify(&mut ctx, r), merged);
}

#[test]
fn optimize_chain_of_prefixes() {
    let mut ctx = Optimizer::new();
    let a = pre(&mut ctx, "a");
    let b = pre(&mut ctx, "b");
    let f = chain(&mut ctx, a, b);
    let merged = pre(&mut ctx, "b/a");
    assert_eq!(optimized(&mut ctx, f), "(+a > +b)");
    assert_eq!(optimize(&mut ctx, merged), f);
    let r = optimize(&mut ctx, f);
    assert_eq!(simplify(&mut ctx, r), merged);
}

#[test]
fn optimize_collapses_small_compositions() {
    let mut ctx = Optimizer::new();
    let e = empty(&mut ctx);
    let none = compose(&mut ctx, vec![]);
    assert_eq!(optimize(&mut ctx, none), e);
    for f in [sub(&mut ctx, "a"), pre(&mut ctx, "p"), identity(&mut ctx), empty(&mut ctx)] {
        let one = compose(&mut ctx, vec![f]);
        assert_eq!(optimize(&mut ctx, one), f);
    }
    let ax = moved(&mut ctx, "a", "x");
    let one = compose(&mut ctx, vec![ax]);
    assert_eq!(optimize(&mut ctx, one), ax);
}

#[test]
fn optimize_splits_a_path_also_behind_an_identity_or_in_a_composition() {
    let mut ctx = Optimizer::new();
    let i = identity(&mut ctx);
    let f = sub(&mut ctx, "a/b");
    let left = chain(&mut ctx, i, f);
    let right = chain(&mut ctx, f, i);
    let one = compose(&mut ctx, vec![f]);
    assert_eq!(optimized(&mut ctx, f), "(/a > /b)");
    assert_eq!(optimized(&mut ctx, left), "(/a > /b)");
    assert_eq!(optimized(&mut ctx, right), "(/a > /b)");
    assert_eq!(optimized(&mut ctx, one), "(/a > /b)");
}

#[test]
fn optimize_factors_shared_subdirectories() {
    let mut ctx = Optimizer::new();
    let ax = moved(&mut ctx, "a/b", "x");
    let by = moved(&mut ctx, "a/c", "y");
    let f = compose(&mut ctx, vec![ax, by]);
    assert_eq!(optimized(&mut ctx, f), "(/a > [(/b > +x), (/c > +y)])");
}

#[test]
fn optimize_is_idempotent_on_examples() {
    let mut ctx = Optimizer::new();
    let ax = moved(&mut ctx, "a/b", "x");
    let by = moved(&mut ctx, "a/c", "y");
    let k = compose(&mut ctx, vec![ax, by]);
    let a = sub(&mut ctx, "a/b/c");
    let p = pre(&mut ctx, "x/y");
    let s = subtract(&mut ctx, k, ax);
    for f in [ax, by, k, a, p, s] {
        let once = optimize(&mut ctx, f);
        let twice = optimize(&mut ctx, once);
        assert_eq!(once, twice);
    }
}

#[test]
fn optimize_is_not_idempotent_on_every_filter() {
    let mut ctx = Optimizer::new();
    let b = sub(&mut ctx, "b");
    let ab = sub(&mut ctx, "a/b");
    let inner = compose(&mut ctx, vec![b, ab]);
    let abx = moved(&mut ctx, "a/b", "x");
    let f = compose(&mut ctx, vec![inner, abx]);
    let once = optimize(&mut ctx, f);
    assert_eq!(show(&ctx, once), "[([id, /a] > /b), (/a > (/b > +x))]");
    let twice = optimize(&mut ctx, once);
    assert_eq!(show(&ctx, twice), "[/b, (/a > [/b, (/b > +x)])]");
    let thrice = optimize(&mut ctx, twice);
    assert_eq!(thrice, twice);
}

#[test]
fn optimize_right_identity_fails_on_a_small_composition() {
    let mut ctx = Optimizer::new();
    let i = identity(&mut ctx);
    let a = sub(&mut ctx, "a");
    let f = compose(&mut ctx, vec![i, a]);
    let right = chain(&mut ctx, f, i);
    assert_eq!(optimized(&mut ctx, right), "[(id > id), (/a > id)]");
    assert_eq!(optimized(&mut ctx, f), "[id, /a]");
    let left = chain(&mut ctx, i, f);
    assert_eq!(optimized(&mut ctx, left), "[id, /a]");
}

#[test]
fn optimize_is_memoized() {
    let mut ctx = Optimizer::new();
    let ax = moved(&mut ctx, "a/b", "x");
    let by = moved(&mut ctx, "a/c", "y");
    let f = compose(&mut ctx, vec![ax, by]);
    let first = optimize(&mut ctx, f);
    let nodes = ctx.store.len();
    let second = optimize(&mut ctx, f);
    assert_eq!(first, second);
    assert_eq!(ctx.store.len(), nodes);
    assert_eq!(ctx.optimized.get(f), Some(first));
}

#[test]
fn optimize_does_not_depend_on_earlier_calls() {
    let mut fresh = Optimizer::new();
    let ax = moved(&mut fresh, "a/b", "x");
    let by = moved(&mut fresh, "a/c", "y");
    let f = compose(&mut fresh, vec![ax, by]);
    let alone = optimized(&mut fresh, f);

    let mut used = Optimizer::new();
    let ax = moved(&mut used, "a/b", "x");
    let by = moved(&mut used, "a/c", "y");
    let f = compose(&mut used, vec![ax, by]);
    let s = subtract(&mut used, f, ax);
    step(&mut used, f);
    optimize(&mut used, s);
    simplify(&mut used, f);
    assert_eq!(optimized(&mut used, f), alone);
}

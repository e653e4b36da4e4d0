use history_filter::filter::members::splice_members;
use history_filter::filter::opt::{flatten, simplify, Optimizer};
use history_filter::filter::store::{Filter, Op};
use history_filter::path::Path;

fn path(text: &str) -> Path {
    Path::from_segments(
        text.split('/')
            .filter(|s| !s.is_empty())
            .map(|s| s.as_bytes().to_vec())
            .collect(),
    )
}

fn text(p: &Path) -> String {
    p.segments
        .iter()
        .map(|s| String::from_utf8(s.clone()).unwrap())
        .collect::<Vec<String>>()
        .join("/")
}

/// Identity `id`, empty `empty`, subdirectory `/a/b`, prefix `+a/b`,
/// chain `(x > y)`, composition `[x, y]`, subtraction `(x - y)`.
fn show(ctx: &Optimizer, f: Filter) -> String {
    match ctx.resolve(f) {
        Op::Identity => "id".to_string(),
        Op::Empty => "empty".to_string(),
        Op::Subdir(p) => format!("/{}", text(&p)),
        Op::Prefix(p) => format!("+{}", text(&p)),
        Op::Chain(a, b) => format!("({} > {})", show(ctx, a), show(ctx, b)),
        Op::Compose(fs) => format!(
            "[{}]",
            fs.iter()
                .map(|m| show(ctx, *m))
                .collect::<Vec<String>>()
                .join(", ")
        ),
        Op::Subtract(a, b) => format!("({} - {})", show(ctx, a), show(ctx, b)),
    }
}

fn sub(ctx: &mut Optimizer, p: &str) -> Filter {
    ctx.intern(Op::Subdir(path(p)))
}

fn pre(ctx: &mut Optimizer, p: &str) -> Filter {
    ctx.intern(Op::Prefix(path(p)))
}

fn chain(ctx: &mut Optimizer, a: Filter, b: Filter) -> Filter {
    ctx.intern(Op::Chain(a, b))
}

fn compose(ctx: &mut Optimizer, fs: Vec<Filter>) -> Filter {
    ctx.intern(Op::Compose(fs))
}

fn subtract(ctx: &mut Optimizer, a: Filter, b: Filter) -> Filter {
    ctx.intern(Op::Subtract(a, b))
}

fn flat(ctx: &mut Optimizer, f: Filter) -> String {
    let r = flatten(&mut ctx.store, f);
    show(ctx, r)
}

fn simple(ctx: &mut Optimizer, f: Filter) -> String {
    let r = simplify(ctx, f);
    show(ctx, r)
}

#[test]
fn splice_replaces_nested_compositions_by_their_members() {
    let mut ctx = Optimizer::new();
    let a = sub(&mut ctx, "a");
    let b = sub(&mut ctx, "b");
    let c = sub(&mut ctx, "c");
    let inner = compose(&mut ctx, vec![b, c]);
    let deeper = compose(&mut ctx, vec![inner]);
    assert_eq!(splice_members(&ctx.store, &vec![a, inner]), vec![a, b, c]);
    assert_eq!(splice_members(&ctx.store, &vec![inner, a, inner]), vec![b, c, a, b, c]);
    assert_eq!(splice_members(&ctx.store, &vec![a, deeper]), vec![a, inner]);
    assert_eq!(splice_members(&ctx.store, &vec![]), vec![]);
}

#[test]
fn flatten_leaves_leaves_alone() {
    let mut ctx = Optimizer::new();
    let a = sub(&mut ctx, "a/b");
    let p = pre(&mut ctx, "x");
    let i = ctx.intern(Op::Identity);
    let e = ctx.intern(Op::Empty);
    assert_eq!(flatten(&mut ctx.store, a), a);
    assert_eq!(flatten(&mut ctx.store, p), p);
    assert_eq!(flatten(&mut ctx.store, i), i);
    assert_eq!(flatten(&mut ctx.store, e), e);
}

#[test]
fn flatten_distributes_chain_over_composition_on_the_right() {
    let mut ctx = Optimizer::new();
    let a = sub(&mut ctx, "a");
    let b = sub(&mut ctx, "b");
    let c = sub(&mut ctx, "c");
    let bc = compose(&mut ctx, vec![b, c]);
    let f = chain(&mut ctx, a, bc);
    assert_eq!(flat(&mut ctx, f), "[(/a > /b), (/a > /c)]");
    let ab = chain(&mut ctx, a, b);
    let ac = chain(&mut ctx, a, c);
    let distributed = compose(&mut ctx, vec![ab, ac]);
    assert_eq!(flatten(&mut ctx.store, f), flatten(&mut ctx.store, distributed));
    assert_eq!(flatten(&mut ctx.store, f), distributed);
}

#[test]
fn flatten_distributes_chain_over_composition_on_the_left() {
    let mut ctx = Optimizer::new();
    let a = sub(&mut ctx, "a");
    let b = sub(&mut ctx, "b");
    let c = pre(&mut ctx, "c");
    let ab = compose(&mut ctx, vec![a, b]);
    let f = chain(&mut ctx, ab, c);
    assert_eq!(flat(&mut ctx, f), "[(/a > +c), (/b > +c)]");
}

#[test]
fn flatten_distributes_both_sides() {
    let mut ctx = Optimizer::new();
    let a = sub(&mut ctx, "a");
    let b = sub(&mut ctx, "b");
    let c = pre(&mut ctx, "c");
    let d = pre(&mut ctx, "d");
    let ab = compose(&mut ctx, vec![a, b]);
    let cd = compose(&mut ctx, vec![c, d]);
    let f = chain(&mut ctx, ab, cd);
    assert_eq!(
        flat(&mut ctx, f),
        "[(/a > +c), (/b > +c), (/a > +d), (/b > +d)]"
    );
}

#[test]
fn flatten_merges_nested_compositions_at_every_depth() {
    let mut ctx = Optimizer::new();
    let a = sub(&mut ctx, "a");
    let b = sub(&mut ctx, "b");
    let c = sub(&mut ctx, "c");
    let only_c = compose(&mut ctx, vec![c]);
    let inner = compose(&mut ctx, vec![b, only_c]);
    let f = compose(&mut ctx, vec![a, inner]);
    assert_eq!(flat(&mut ctx, f), "[/a, /b, /c]");
}

#[test]
fn flatten_works_inside_subtraction() {
    let mut ctx = Optimizer::new();
    let a = sub(&mut ctx, "a");
    let b = sub(&mut ctx, "b");
    let c = sub(&mut ctx, "c");
    let d = sub(&mut ctx, "d");
    let bc = compose(&mut ctx, vec![b, c]);
    let left = chain(&mut ctx, a, bc);
    let f = subtract(&mut ctx, left, d);
    assert_eq!(flat(&mut ctx, f), "([(/a > /b), (/a > /c)] - /d)");
}

#[test]
fn flatten_works_inside_chain_operands() {
    let mut ctx = Optimizer::new();
    let a = sub(&mut ctx, "a");
    let b = sub(&mut ctx, "b");
    let c = sub(&mut ctx, "c");
    let only_c = compose(&mut ctx, vec![c]);
    let nested = compose(&mut ctx, vec![b, only_c]);
    let s = subtract(&mut ctx, nested, a);
    let f = chain(&mut ctx, a, s);
    assert_eq!(flat(&mut ctx, f), "(/a > ([/b, /c] - /a))");
}

#[test]
fn flatten_is_idempotent_on_examples() {
    let mut ctx = Optimizer::new();
    let a = sub(&mut ctx, "a");
    let b = sub(&mut ctx, "b");
    let c = pre(&mut ctx, "c");
    let d = pre(&mut ctx, "d");
    let ab = compose(&mut ctx, vec![a, b]);
    let cd = compose(&mut ctx, vec![c, d]);
    let f = chain(&mut ctx, ab, cd);
    let g = subtract(&mut ctx, f, ab);
    for x in [a, ab, f, g] {
        let once = flatten(&mut ctx.store, x);
        let twice = flatten(&mut ctx.store, once);
        assert_eq!(once, twice);
    }
}

#[test]
fn simplify_leaves_leaves_alone() {
    let mut ctx = Optimizer::new();
    let a = sub(&mut ctx, "a/b");
    let p = pre(&mut ctx, "x");
    let i = ctx.intern(Op::Identity);
    let e = ctx.intern(Op::Empty);
    assert_eq!(simplify(&mut ctx, a), a);
    assert_eq!(simplify(&mut ctx, p), p);
    assert_eq!(simplify(&mut ctx, i), i);
    assert_eq!(simplify(&mut ctx, e), e);
}

#[test]
fn simplify_merges_neighbouring_subdirectories() {
    let mut ctx = Optimizer::new();
    let a = sub(&mut ctx, "a");
    let b = sub(&mut ctx, "b");
    let f = chain(&mut ctx, a, b);
    assert_eq!(simple(&mut ctx, f), "/a/b");
}

#[test]
fn simplify_merges_neighbouring_prefixes_outer_first() {
    let mut ctx = Optimizer::new();
    let a = pre(&mut ctx, "a");
    let b = pre(&mut ctx, "b");
    let f = chain(&mut ctx, a, b);
    assert_eq!(simple(&mut ctx, f), "+b/a");
}

#[test]
fn simplify_merges_a_run_of_subdirectories() {
    let mut ctx = Optimizer::new();
    let a = sub(&mut ctx, "a");
    let b = sub(&mut ctx, "b");
    let c = sub(&mut ctx, "c");
    let bc = chain(&mut ctx, b, c);
    let f = chain(&mut ctx, a, bc);
    assert_eq!(simple(&mut ctx, f), "/a/b/c");
}

#[test]
fn simplify_makes_chains_lean_left() {
    let mut ctx = Optimizer::new();
    let a = sub(&mut ctx, "a");
    let p = pre(&mut ctx, "p");
    let b = sub(&mut ctx, "b");
    let pb = chain(&mut ctx, p, b);
    let f = chain(&mut ctx, a, pb);
    assert_eq!(simple(&mut ctx, f), "((/a > +p) > /b)");
}

#[test]
fn simplify_joins_a_prefix_with_the_prefix_that_ends_the_chain_before_it() {
    let mut ctx = Optimizer::new();
    let a = sub(&mut ctx, "a");
    let p = pre(&mut ctx, "p");
    let q = pre(&mut ctx, "q");
    let ap = chain(&mut ctx, a, p);
    let f = chain(&mut ctx, ap, q);
    assert_eq!(simple(&mut ctx, f), "(/a > +q/p)");
}

#[test]
fn simplify_keeps_the_identity() {
    let mut ctx = Optimizer::new();
    let i = ctx.intern(Op::Identity);
    let a = sub(&mut ctx, "a");
    let f = chain(&mut ctx, i, a);
    assert_eq!(simple(&mut ctx, f), "(id > /a)");
}

#[test]
fn simplify_merges_one_level_of_nested_composition_per_pass() {
    let mut ctx = Optimizer::new();
    let a = sub(&mut ctx, "a");
    let b = sub(&mut ctx, "b");
    let c = sub(&mut ctx, "c");
    let bc = compose(&mut ctx, vec![b, c]);
    let f = compose(&mut ctx, vec![a, bc]);
    assert_eq!(simple(&mut ctx, f), "[/a, /b, /c]");
}

#[test]
fn simplify_simplifies_members_of_a_composition() {
    let mut ctx = Optimizer::new();
    let a = sub(&mut ctx, "a");
    let b = sub(&mut ctx, "b");
    let c = pre(&mut ctx, "c");
    let ab = chain(&mut ctx, a, b);
    let f = compose(&mut ctx, vec![ab, c]);
    assert_eq!(simple(&mut ctx, f), "[/a/b, +c]");
}

#[test]
fn simplify_simplifies_both_sides_of_a_subtraction() {
    let mut ctx = Optimizer::new();
    let a = sub(&mut ctx, "a");
    let b = sub(&mut ctx, "b");
    let p = pre(&mut ctx, "a");
    let q = pre(&mut ctx, "b");
    let ab = chain(&mut ctx, a, b);
    let pq = chain(&mut ctx, p, q);
    let f = subtract(&mut ctx, ab, pq);
    assert_eq!(simple(&mut ctx, f), "(/a/b - +b/a)");
}

#[test]
fn simplify_keeps_the_shape_that_flatten_explodes() {
    let mut ctx = Optimizer::new();
    let a = sub(&mut ctx, "a");
    let b = sub(&mut ctx, "b");
    let c = sub(&mut ctx, "c");
    let bc = compose(&mut ctx, vec![b, c]);
    let f = chain(&mut ctx, a, bc);
    assert_eq!(simple(&mut ctx, f), "(/a > [/b, /c])");
    assert_eq!(flat(&mut ctx, f), "[(/a > /b), (/a > /c)]");
}

#[test]
fn simplify_is_idempotent_on_examples() {
    let mut ctx = Optimizer::new();
    let a = sub(&mut ctx, "a");
    let b = sub(&mut ctx, "b");
    let p = pre(&mut ctx, "p");
    let q = pre(&mut ctx, "q");
    let ab = chain(&mut ctx, a, b);
    let pq = chain(&mut ctx, p, q);
    let abpq = chain(&mut ctx, ab, pq);
    let k = compose(&mut ctx, vec![abpq, ab, pq]);
    let kk = compose(&mut ctx, vec![k, a]);
    let s = subtract(&mut ctx, kk, abpq);
    for x in [a, ab, pq, abpq, k, kk, s] {
        let once = simplify(&mut ctx, x);
        let twice = simplify(&mut ctx, once);
        assert_eq!(once, twice);
    }
}

#[test]
fn simplify_is_memoized() {
    let mut ctx = Optimizer::new();
    let a = sub(&mut ctx, "a");
    let b = sub(&mut ctx, "b");
    let p = pre(&mut ctx, "p");
    let ab = chain(&mut ctx, a, b);
    let f = chain(&mut ctx, ab, p);
    let first = simplify(&mut ctx, f);
    let nodes = ctx.store.len();
    let second = simplify(&mut ctx, f);
    assert_eq!(first, second);
    assert_eq!(ctx.store.len(), nodes);
    assert_eq!(ctx.simplified.get(f), Some(first));
}

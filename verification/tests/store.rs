use history_filter::filter::hash::{bytes_hash, mixed, op_hash, path_hash, MODULUS};
use history_filter::filter::memo::Memo;
use history_filter::filter::store::{
    copy_filters, copy_op, has_filter, has_index, op_below, same_filters, same_op, Filter,
    FilterStore, Op,
};
use history_filter::path::Path;

fn path(text: &str) -> Path {
    Path::from_segments(
        text.split('/')
            .filter(|s| !s.is_empty())
            .map(|s| s.as_bytes().to_vec())
            .collect(),
    )
}

#[test]
fn new_store_is_empty() {
    let store = FilterStore::new();
    assert_eq!(store.len(), 0);
}

#[test]
fn interning_equal_content_gives_one_handle() {
    let mut store = FilterStore::new();
    let a = store.intern(Op::Subdir(path("a")));
    let b = store.intern(Op::Subdir(path("a")));
    assert_eq!(a, b);
    assert_eq!(store.len(), 1);
}

#[test]
fn interning_different_content_gives_different_handles() {
    let mut store = FilterStore::new();
    let a = store.intern(Op::Subdir(path("a")));
    let b = store.intern(Op::Prefix(path("a")));
    let c = store.intern(Op::Subdir(path("b")));
    let i = store.intern(Op::Identity);
    let e = store.intern(Op::Empty);
    assert_ne!(a, b);
    assert_ne!(a, c);
    assert_ne!(b, c);
    assert_ne!(i, e);
    assert_eq!(store.len(), 5);
}

#[test]
fn interning_is_structural_for_nested_filters() {
    let mut store = FilterStore::new();
    let a = store.intern(Op::Subdir(path("a")));
    let b = store.intern(Op::Prefix(path("b")));
    let c1 = store.intern(Op::Chain(a, b));
    let a2 = store.intern(Op::Subdir(path("a")));
    let b2 = store.intern(Op::Prefix(path("b")));
    let c2 = store.intern(Op::Chain(a2, b2));
    assert_eq!(c1, c2);
    let swapped = store.intern(Op::Chain(b, a));
    assert_ne!(c1, swapped);
    let k1 = store.intern(Op::Compose(vec![a, b]));
    let k2 = store.intern(Op::Compose(vec![a, b]));
    let k3 = store.intern(Op::Compose(vec![b, a]));
    assert_eq!(k1, k2);
    assert_ne!(k1, k3);
    let s1 = store.intern(Op::Subtract(a, b));
    let s2 = store.intern(Op::Subtract(a, b));
    assert_eq!(s1, s2);
    assert_ne!(s1, c1);
}

#[test]
fn resolve_returns_the_interned_content() {
    let mut store = FilterStore::new();
    let a = store.intern(Op::Subdir(path("a/b")));
    let b = store.intern(Op::Identity);
    let c = store.intern(Op::Chain(a, b));
    let k = store.intern(Op::Compose(vec![c, a]));
    assert!(same_op(&store.resolve(a), &Op::Subdir(path("a/b"))));
    assert!(same_op(&store.resolve(b), &Op::Identity));
    assert!(same_op(&store.resolve(c), &Op::Chain(a, b)));
    assert!(same_op(&store.resolve(k), &Op::Compose(vec![c, a])));
    assert!(same_op(store.get(k), &Op::Compose(vec![c, a])));
}

#[test]
fn handles_survive_later_interning() {
    let mut store = FilterStore::new();
    let a = store.intern(Op::Subdir(path("a")));
    for i in 0..20 {
        store.intern(Op::Prefix(path(&format!("p{}", i))));
    }
    assert!(same_op(&store.resolve(a), &Op::Subdir(path("a"))));
    assert_eq!(store.intern(Op::Subdir(path("a"))), a);
    assert_eq!(store.len(), 21);
}

#[test]
fn same_op_compares_structure() {
    let f = Filter { id: 0 };
    let g = Filter { id: 1 };
    assert!(same_op(&Op::Identity, &Op::Identity));
    assert!(same_op(&Op::Empty, &Op::Empty));
    assert!(!same_op(&Op::Identity, &Op::Empty));
    assert!(same_op(&Op::Subdir(path("a")), &Op::Subdir(path("a"))));
    assert!(!same_op(&Op::Subdir(path("a")), &Op::Prefix(path("a"))));
    assert!(!same_op(&Op::Prefix(path("a")), &Op::Prefix(path("b"))));
    assert!(same_op(&Op::Chain(f, g), &Op::Chain(f, g)));
    assert!(!same_op(&Op::Chain(f, g), &Op::Chain(g, f)));
    assert!(!same_op(&Op::Chain(f, g), &Op::Subtract(f, g)));
    assert!(same_op(&Op::Compose(vec![f, g]), &Op::Compose(vec![f, g])));
    assert!(!same_op(&Op::Compose(vec![f, g]), &Op::Compose(vec![f])));
    assert!(same_op(&copy_op(&Op::Compose(vec![f, g])), &Op::Compose(vec![f, g])));
}

#[test]
fn handle_lists_compare_copy_and_search() {
    let f = Filter { id: 0 };
    let g = Filter { id: 1 };
    let h = Filter { id: 2 };
    assert!(same_filters(&vec![f, g], &vec![f, g]));
    assert!(!same_filters(&vec![f, g], &vec![g, f]));
    assert!(!same_filters(&vec![f], &vec![f, g]));
    assert_eq!(copy_filters(&vec![f, g, h]), vec![f, g, h]);
    assert!(has_filter(&vec![f, g], g));
    assert!(!has_filter(&vec![f, g], h));
    assert!(!has_filter(&vec![], f));
}

#[test]
fn memo_returns_what_was_recorded() {
    let mut memo = Memo::new();
    let f = Filter { id: 3 };
    let g = Filter { id: 7 };
    let h = Filter { id: 0 };
    assert_eq!(memo.get(f), None);
    memo.insert(f, g);
    assert_eq!(memo.get(f), Some(g));
    assert_eq!(memo.get(g), None);
    assert_eq!(memo.get(h), None);
    memo.insert(h, f);
    assert_eq!(memo.get(h), Some(f));
    assert_eq!(memo.get(f), Some(g));
    memo.insert(f, h);
    assert_eq!(memo.get(f), Some(h));
}

#[test]
fn hashes_depend_on_content_only() {
    let f = Filter { id: 4 };
    let g = Filter { id: 9 };
    assert_eq!(op_hash(&Op::Identity), 1);
    assert_eq!(op_hash(&Op::Empty), 2);
    assert_eq!(op_hash(&Op::Subdir(path("a/b"))), op_hash(&Op::Subdir(path("a/b"))));
    assert_eq!(op_hash(&Op::Chain(f, g)), op_hash(&Op::Chain(f, g)));
    assert_eq!(
        op_hash(&Op::Compose(vec![f, g])),
        op_hash(&Op::Compose(vec![f, g]))
    );
    assert_ne!(op_hash(&Op::Subdir(path("a"))), op_hash(&Op::Prefix(path("a"))));
    assert_ne!(op_hash(&Op::Chain(f, g)), op_hash(&Op::Chain(g, f)));
    assert_ne!(op_hash(&Op::Chain(f, g)), op_hash(&Op::Subtract(f, g)));
    // The segments of a path are kept apart.
    assert_ne!(path_hash(3, &path("ab")), path_hash(3, &path("a/b")));
}

#[test]
fn hash_steps_follow_their_formula() {
    assert_eq!(mixed(0, 0), 1);
    assert_eq!(mixed(1, 0), 16777620);
    assert_eq!(mixed(5, 7), 5 * 16777619 + 7 + 1);
    assert_eq!(mixed(MODULUS, 0), 1);
    assert_eq!(mixed(0, MODULUS + 2), 3);
    assert_eq!(mixed(256, 0), (256 * 16777619 + 1) % MODULUS);
    assert!(mixed(u64::MAX, u64::MAX) < MODULUS);
    assert_eq!(bytes_hash(9, &vec![]), 9);
    assert_eq!(bytes_hash(0, &vec![7]), 8);
    assert_eq!(bytes_hash(0, &vec![7, 1]), 8 * 16777619 + 1 + 1);
    assert_eq!(path_hash(9, &path("")), 9);
    assert_eq!(path_hash(0, &path("\u{7}")), (8 * 16777619 + 256 + 1) % MODULUS);
}

#[test]
fn interning_tells_contents_with_one_hash_apart() {
    let one = Op::Subdir(path("cmovfske"));
    let other = Op::Subdir(path("aotfaiye"));
    assert_eq!(op_hash(&one), 3970031212);
    assert_eq!(op_hash(&other), 3970031212);
    assert!(!same_op(&one, &other));
    let mut store = FilterStore::new();
    let a = store.intern(one);
    let b = store.intern(other);
    assert_ne!(a, b);
    assert_eq!(store.len(), 2);
    assert_eq!(store.index[&3970031212], vec![a.id, b.id]);
    assert_eq!(store.intern(Op::Subdir(path("aotfaiye"))), b);
    assert_eq!(store.intern(Op::Subdir(path("cmovfske"))), a);
    assert_eq!(store.len(), 2);
    assert!(same_op(&store.resolve(a), &Op::Subdir(path("cmovfske"))));
    assert!(same_op(&store.resolve(b), &Op::Subdir(path("aotfaiye"))));
}

#[test]
fn interning_many_contents_keeps_them_apart() {
    let mut store = FilterStore::new();
    let count = 50_000;
    let mut handles = Vec::with_capacity(count);
    for i in 0..count {
        handles.push(store.intern(Op::Subdir(path(&format!("d{}", i)))));
    }
    assert_eq!(store.len(), count);
    for (i, f) in handles.iter().enumerate() {
        assert_eq!(f.id, i);
    }
    for i in (0..count).step_by(997) {
        assert_eq!(store.intern(Op::Subdir(path(&format!("d{}", i)))), handles[i]);
    }
    assert_eq!(store.len(), count);
}

#[test]
fn store_check_accepts_what_interning_built() {
    let mut store = FilterStore::new();
    assert!(store.check());
    let a = store.intern(Op::Subdir(path("a")));
    let b = store.intern(Op::Prefix(path("b")));
    let c = store.intern(Op::Chain(a, b));
    store.intern(Op::Compose(vec![c, a]));
    store.intern(Op::Subtract(c, b));
    store.intern(Op::Subdir(path("cmovfske")));
    store.intern(Op::Subdir(path("aotfaiye")));
    assert!(store.check());
}

#[test]
fn store_check_finds_damage() {
    let build = || {
        let mut store = FilterStore::new();
        let a = store.intern(Op::Subdir(path("a")));
        let b = store.intern(Op::Prefix(path("b")));
        store.intern(Op::Chain(a, b));
        store
    };
    // An operand that is not interned before its node.
    let mut store = build();
    store.nodes[2] = Op::Chain(Filter { id: 0 }, Filter { id: 2 });
    assert!(!store.check());
    let mut store = build();
    store.nodes[0] = Op::Compose(vec![Filter { id: 1 }]);
    assert!(!store.check());
    // A content stored twice.
    let mut store = build();
    store.nodes[1] = Op::Subdir(path("a"));
    assert!(!store.check());
    // A node that the table does not list.
    let mut store = build();
    store.index.clear();
    assert!(!store.check());
    let mut store = build();
    store.nodes.push(Op::Empty);
    assert!(!store.check());
    // A content changed behind the table's back.
    let mut store = build();
    store.nodes[1] = Op::Prefix(path("c"));
    assert!(!store.check());
}

#[test]
fn operands_and_lists_are_checked() {
    let f = Filter { id: 2 };
    let g = Filter { id: 5 };
    assert!(op_below(&Op::Identity, 0));
    assert!(op_below(&Op::Subdir(path("a")), 0));
    assert!(op_below(&Op::Chain(f, g), 6));
    assert!(!op_below(&Op::Chain(f, g), 5));
    assert!(!op_below(&Op::Subtract(g, f), 5));
    assert!(op_below(&Op::Compose(vec![]), 0));
    assert!(op_below(&Op::Compose(vec![f, g]), 6));
    assert!(!op_below(&Op::Compose(vec![f, g, f]), 5));
    assert!(has_index(&vec![3, 1, 4], 4));
    assert!(!has_index(&vec![3, 1, 4], 2));
    assert!(!has_index(&vec![], 0));
}

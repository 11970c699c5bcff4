use rcc::db::data_type::sorted_set::{sharp_limit, shape_rank_index, Node, NodeSet};
use rcc::utils::bound::Bound;

fn node(key: &str, score: i64) -> Node {
    Node::new(key.to_owned(), score)
}

fn set_of(nodes: Vec<Node>) -> NodeSet {
    let mut set = NodeSet::new();
    for n in nodes {
        set.insert(n);
    }
    set
}

fn scored_set() -> NodeSet {
    set_of(vec![
        node("n", 11),
        node("m", 10),
        node("l", 1),
        node("k", 9),
        node("j", 8),
        node("i", 7),
        node("h", 6),
        node("g", 5),
        node("f", 2),
        node("e", 2),
        node("e2", 2),
        node("d", 2),
        node("c", 1),
        node("b", 1),
        node("a", 1),
    ])
}

fn flat_set() -> NodeSet {
    set_of(
        ["n", "m", "l", "k", "j", "i", "h", "g", "f", "e", "e2", "d", "c", "b", "a"]
            .iter()
            .map(|k| node(k, 1))
            .collect(),
    )
}

#[test]
fn test_tree() {
    let mut tree = rpds::RedBlackTreeSetSync::new_sync();
    tree.insert_mut(1);
    tree.insert_mut(5);
    tree.insert_mut(7);
    tree.insert_mut(2);
    tree.iter().for_each(|t| println!("{}", t));
    tree.range(2..6).for_each(|t| println!("{}", t));
}

#[test]
fn test_iter() {
    let v = vec![1, 2, 3, 4, 5, 6, 7];
    let v2: Vec<_> = v.into_iter().filter(|t| *t > 2).take(4).skip(1).collect();
    assert_eq!(v2, vec![4, 5, 6]);
}

#[test]
fn test_zrange_by_score() {
    let set = scored_set();
    let range = (Bound::Excluded(1), Bound::Included(10));
    let res: Vec<_> = set.zrange_by_score(range, false, None);
    assert_eq!(
        res,
        vec![
            node("d", 2),
            node("e", 2),
            node("e2", 2),
            node("f", 2),
            node("g", 5),
            node("h", 6),
            node("i", 7),
            node("j", 8),
            node("k", 9),
            node("m", 10),
        ]
    );
    let range = (Bound::Excluded(10), Bound::Excluded(1));
    let res: Vec<_> = set.zrange_by_score(range, true, None);
    assert_eq!(
        res,
        vec![
            node("k", 9),
            node("j", 8),
            node("i", 7),
            node("h", 6),
            node("g", 5),
            node("f", 2),
            node("e2", 2),
            node("e", 2),
            node("d", 2),
        ]
    );

    let range = (Bound::Excluded(10), Bound::Excluded(1));
    let res: Vec<_> = set.zrange_by_score(range, true, Some((2, 6)));
    assert_eq!(
        res,
        vec![node("i", 7), node("h", 6), node("g", 5), node("f", 2), node("e2", 2), node("e", 2),]
    );
}

#[test]
fn test_zrange_by_rank() {
    let set = scored_set();
    let res: Vec<_> = set.zrange_by_rank((1, 10), false, None);
    assert_eq!(
        res,
        vec![
            node("b", 1),
            node("c", 1),
            node("l", 1),
            node("d", 2),
            node("e", 2),
            node("e2", 2),
            node("f", 2),
            node("g", 5),
            node("h", 6),
            node("i", 7),
        ]
    );
    let res: Vec<_> = set.zrange_by_rank((1, 10), true, None);
    assert_eq!(
        res,
        vec![
            node("m", 10),
            node("k", 9),
            node("j", 8),
            node("i", 7),
            node("h", 6),
            node("g", 5),
            node("f", 2),
            node("e2", 2),
            node("e", 2),
            node("d", 2),
        ]
    );

    let res: Vec<_> = set.zrange_by_rank((1, 10), true, Some((2, 6)));
    assert_eq!(
        res,
        vec![node("j", 8), node("i", 7), node("h", 6), node("g", 5), node("f", 2), node("e2", 2),]
    );
}

#[test]
fn test_zrange_by_lex() {
    let set = flat_set();
    let res = set.zrange_by_lex((Bound::Excluded("a".to_owned()), Bound::Excluded("j".to_owned())), false, None);
    assert_eq!(
        res,
        vec![
            node("b", 1),
            node("c", 1),
            node("d", 1),
            node("e", 1),
            node("e2", 1),
            node("f", 1),
            node("g", 1),
            node("h", 1),
            node("i", 1),
        ]
    );
    let res = set.zrange_by_lex((Bound::Excluded("j".to_owned()), Bound::Included("d".to_owned())), true, None);
    assert_eq!(
        res,
        vec![node("i", 1), node("h", 1), node("g", 1), node("f", 1), node("e2", 1), node("e", 1), node("d", 1),]
    );

    let res = set.zrange_by_lex(
        (Bound::Excluded("j".to_owned()), Bound::Included("d".to_owned())),
        true,
        Some((2, 4)),
    );
    assert_eq!(res, vec![node("g", 1), node("f", 1), node("e2", 1), node("e", 1),]);

    let res = set.zrange_by_lex((Bound::Unbounded, Bound::Included("i".to_owned())), false, Some((2, 6)));
    assert_eq!(
        res,
        vec![node("c", 1), node("d", 1), node("e", 1), node("e2", 1), node("f", 1), node("g", 1),]
    );
}

#[test]
fn zrange_by_lex_on_an_empty_set() {
    let set = NodeSet::new();
    let res = set.zrange_by_lex((Bound::Included("b".to_owned()), Bound::Included("a".to_owned())), false, None);
    assert!(res.is_empty());
}

#[test]
fn zrange_by_rank_covers_everything() {
    let set = scored_set();
    let all = set.zrange_by_rank((0, -1), false, None);
    assert_eq!(all.len(), 15);
    assert_eq!(all[0], node("a", 1));
    assert_eq!(all[14], node("n", 11));
    assert!(set.zrange_by_rank((5, 2), false, None).is_empty());
    assert_eq!(set.zrange_by_rank((-2, -1), false, None), vec![node("m", 10), node("n", 11)]);
}

#[test]
fn zrank_answers_the_position() {
    let set = scored_set();
    assert_eq!(set.zrank(&node("a", 1), false), Some(0));
    assert_eq!(set.zrank(&node("l", 1), false), Some(3));
    assert_eq!(set.zrank(&node("k", 9), false), Some(12));
    assert_eq!(set.zrank(&node("k", 9), true), Some(2));
    assert_eq!(set.zrank(&node("n", 11), true), Some(0));
    assert_eq!(set.zrank(&node("zz", 3), false), None);
}

#[test]
fn nodes_insert_and_remove() {
    let mut set = set_of(vec![node("b", 2), node("a", 2), node("c", 1)]);
    assert_eq!(set.size(), 3);
    set.insert(node("a", 2));
    assert_eq!(set.size(), 3);
    assert_eq!(set.first(), Some(&node("c", 1)));
    assert!(set.contains(&node("a", 2)));
    assert!(set.remove(&node("a", 2)));
    assert!(!set.remove(&node("a", 2)));
    assert!(!set.contains(&node("a", 2)));
    assert_eq!(set.size(), 2);
}

#[test]
fn limits_and_ranks() {
    assert_eq!(sharp_limit(None, 9), (0, 9));
    assert_eq!(sharp_limit(Some((-3, 4)), 9), (0, 4));
    assert_eq!(sharp_limit(Some((2, -1)), 9), (2, 9));
    assert_eq!(sharp_limit(Some((2, 3)), 9), (2, 5));
    assert_eq!(shape_rank_index(10, -1, true), 10);
    assert_eq!(shape_rank_index(10, -20, false), 0);
    assert_eq!(shape_rank_index(10, 3, true), 4);
    assert_eq!(shape_rank_index(10, 30, false), 10);
}

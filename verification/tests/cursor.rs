use rope_btree::BTree;
use rope_btree::TextChunk;

fn tree(s: &str) -> BTree<TextChunk> {
    BTree::from_chunk(TextChunk::from_chars(s.chars().collect()))
}

/// A tree with exactly `n` leaves of four units each: full chunks never
/// merge, so each concatenation adds one leaf.
fn full_leaves(n: usize) -> (BTree<TextChunk>, Vec<String>) {
    let mut expected = Vec::new();
    let mut t: Option<BTree<TextChunk>> = None;
    for i in 0..n {
        let letter = char::from_u32('a' as u32 + (i as u32 % 26)).unwrap();
        let text: String = std::iter::repeat(letter).take(4).collect();
        expected.push(text.clone());
        let leaf = tree(&text);
        t = Some(match t {
            None => leaf,
            Some(prev) => prev.concat(leaf),
        });
    }
    (t.unwrap(), expected)
}

fn leaf_string(cursor_chars: &Vec<char>) -> String {
    cursor_chars.iter().collect()
}

#[test]
fn cursor_visits_leaves_in_order() {
    let (t, expected) = full_leaves(12);
    let mut cursor = t.cursor_front();
    let mut seen = Vec::new();
    seen.push(leaf_string(cursor.current().chars()));
    for _ in 1..expected.len() {
        cursor.move_right();
        seen.push(leaf_string(cursor.current().chars()));
    }
    assert_eq!(seen, expected);
}

#[test]
fn cursor_round_trip() {
    let (t, expected) = full_leaves(10);
    let n = expected.len();
    let mut cursor = t.cursor_front();
    let mut forward = Vec::new();
    forward.push(leaf_string(cursor.current().chars()));
    for _ in 1..n {
        cursor.move_right();
        forward.push(leaf_string(cursor.current().chars()));
    }
    // After n - 1 steps right the cursor stands at the last leaf; n - 1
    // steps left return it to the first, visiting the same leaves reversed.
    let mut backward = Vec::new();
    backward.push(leaf_string(cursor.current().chars()));
    for _ in 1..n {
        cursor.move_left();
        backward.push(leaf_string(cursor.current().chars()));
    }
    assert_eq!(forward, expected);
    backward.reverse();
    assert_eq!(backward, expected);
    assert_eq!(leaf_string(cursor.current().chars()), expected[0]);
}

#[test]
fn cursor_crosses_branch_boundaries() {
    // Seventeen full leaves give a height-two tree, so moving right must
    // climb over interior branch boundaries.
    let (t, expected) = full_leaves(17);
    assert_eq!(t.height(), 2);
    let mut cursor = t.cursor_front();
    let mut seen = Vec::new();
    seen.push(leaf_string(cursor.current().chars()));
    for _ in 1..expected.len() {
        cursor.move_right();
        seen.push(leaf_string(cursor.current().chars()));
    }
    assert_eq!(seen, expected);
}

#[test]
fn cursor_on_single_leaf() {
    let t = tree("hi");
    let cursor = t.cursor_front();
    assert_eq!(leaf_string(cursor.current().chars()), "hi");
}

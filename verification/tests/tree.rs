use rope_btree::BTree;
use rope_btree::Chunk;
use rope_btree::Info;
use rope_btree::LineInfo;
use rope_btree::TextChunk;

fn chunk(s: &str) -> TextChunk {
    TextChunk::from_chars(s.chars().collect())
}

fn tree(s: &str) -> BTree<TextChunk> {
    BTree::from_chunk(chunk(s))
}

/// Reads the whole content of a tree through a cursor, leaf by leaf.
fn read_all(t: &BTree<TextChunk>) -> String {
    let total = t.len();
    let mut out = String::new();
    let mut cursor = t.cursor_front();
    loop {
        for c in cursor.current().chars() {
            out.push(*c);
        }
        if out.chars().count() >= total {
            break;
        }
        cursor.move_right();
    }
    out
}

#[test]
fn empty_tree_basics() {
    let t: BTree<TextChunk> = BTree::new();
    assert_eq!(t.len(), 0);
    assert_eq!(t.height(), 0);
    assert_eq!(t.info(), LineInfo { newlines: 0 });
    let cursor = t.cursor_front();
    assert_eq!(cursor.current().chars().len(), 0);
}

#[test]
fn from_chunk_roundtrip() {
    let t = tree("ab");
    assert_eq!(t.len(), 2);
    assert_eq!(t.height(), 0);
    let cursor = t.cursor_front();
    assert_eq!(cursor.current().chars(), &vec!['a', 'b']);
}

#[test]
fn concat_len_sums() {
    let a = tree("ab").concat(tree("cd"));
    let b = tree("ef");
    assert_eq!(a.len(), 4);
    let c = a.concat(b);
    assert_eq!(c.len(), 6);
}

#[test]
fn concat_small_chunks_merge() {
    let c = tree("a").concat(tree("bcd"));
    assert_eq!(c.len(), 4);
    assert_eq!(c.height(), 0);
    let cursor = c.cursor_front();
    assert_eq!(cursor.current().chars(), &vec!['a', 'b', 'c', 'd']);
}

#[test]
fn concat_distributes_toward_midpoint() {
    // 3 + 2 units exceed the chunk bound of 4: the left side keeps the
    // floor half (2 units) and the right side takes the rest.
    let c = tree("abc").concat(tree("de"));
    assert_eq!(c.len(), 5);
    assert_eq!(c.height(), 1);
    let mut cursor = c.cursor_front();
    assert_eq!(cursor.current().chars(), &vec!['a', 'b']);
    cursor.move_right();
    assert_eq!(cursor.current().chars(), &vec!['c', 'd', 'e']);
}

#[test]
fn concat_reads_in_order() {
    let a = tree("ab").concat(tree("cd"));
    let b = tree("ef");
    let c = a.concat(b);
    assert_eq!(read_all(&c), "abcdef");
}

#[test]
fn concat_into_taller_tree_prepends() {
    let tall = tree("aaaa").concat(tree("bbbb"));
    assert_eq!(tall.height(), 1);
    let c = tree("x").concat(tall);
    assert_eq!(c.len(), 9);
    assert_eq!(read_all(&c), "xaaaabbbb");
    // The single unit cannot merge into the full first leaf, so the pair
    // rebalances: the front leaf keeps the floor half of the five units.
    let mut cursor = c.cursor_front();
    assert_eq!(cursor.current().chars(), &vec!['x', 'a']);
    cursor.move_right();
    assert_eq!(cursor.current().chars(), &vec!['a', 'a', 'a']);
    cursor.move_right();
    assert_eq!(cursor.current().chars(), &vec!['b', 'b', 'b', 'b']);
}

#[test]
fn info_counts_newlines() {
    let t = tree("a\nb\n");
    assert_eq!(t.info(), LineInfo { newlines: 2 });
    assert_eq!(tree("abcd").info(), LineInfo { newlines: 0 });
}

#[test]
fn concat_info_sums() {
    let a = tree("a\nb\n");
    let b = tree("\nc");
    let c = a.concat(b);
    assert_eq!(c.info(), LineInfo { newlines: 3 });
    assert_eq!(read_all(&c), "a\nb\n\nc");
}

#[test]
fn concat_is_associative_in_content() {
    let grouped_left = tree("abc").concat(tree("de")).concat(tree("fgh"));
    let grouped_right = tree("abc").concat(tree("de").concat(tree("fgh")));
    assert_eq!(grouped_left.len(), grouped_right.len());
    assert_eq!(grouped_left.info(), grouped_right.info());
    assert_eq!(read_all(&grouped_left), read_all(&grouped_right));
    assert_eq!(read_all(&grouped_left), "abcdefgh");
}

#[test]
fn append_and_prepend_in_place() {
    let mut t = tree("cd");
    t.append(tree("ef"));
    t.prepend(tree("ab"));
    assert_eq!(t.len(), 6);
    assert_eq!(read_all(&t), "abcdef");
}

#[test]
fn root_splits_only_when_root_overflows() {
    // Full chunks never merge, so each concatenation adds one leaf. The
    // root branch holds up to 8 children; the ninth leaf forces a root
    // split, and only then does the height grow again.
    let mut t = tree("aaaa");
    assert_eq!(t.height(), 0);
    for k in 2..=9usize {
        t = t.concat(tree("aaaa"));
        assert_eq!(t.len(), 4 * k);
        if k <= 8 {
            assert_eq!(t.height(), 1);
        } else {
            assert_eq!(t.height(), 2);
        }
    }
    assert_eq!(read_all(&t), "a".repeat(36));
}

#[test]
fn repeated_single_unit_appends() {
    let mut t: BTree<TextChunk> = BTree::new();
    let mut heights = Vec::new();
    for i in 0..50usize {
        t.append(tree("x"));
        assert_eq!(t.len(), i + 1);
        heights.push(t.height());
    }
    // Heights never decrease and grow by at most one at a time.
    for w in heights.windows(2) {
        assert!(w[0] <= w[1] && w[1] <= w[0] + 1);
    }
    // Fifty units cannot fit under a single root branch of chunks of at
    // most four units, so the tree must have grown to height two.
    assert_eq!(*heights.last().unwrap(), 2);
    assert_eq!(read_all(&t), "x".repeat(50));
}

#[test]
fn line_info_is_a_group() {
    let mut acc = LineInfo::new();
    assert_eq!(acc, LineInfo { newlines: 0 });
    acc.accumulate(LineInfo { newlines: 7 });
    acc.accumulate(LineInfo { newlines: 5 });
    assert_eq!(acc, LineInfo { newlines: 12 });
    acc.subtract(LineInfo { newlines: 5 });
    assert_eq!(acc, LineInfo { newlines: 7 });
}

#[test]
fn chunk_moves_transfer_content() {
    let mut left = chunk("abcd");
    let mut right = chunk("");
    left.move_right(&mut right, 2);
    assert_eq!(left.chars(), &vec!['a', 'b']);
    assert_eq!(right.chars(), &vec!['c', 'd']);
    let mut taker = chunk("x");
    taker.move_left(&mut right, 1);
    assert_eq!(taker.chars(), &vec!['x', 'c']);
    assert_eq!(right.chars(), &vec!['d']);
}

#[test]
fn chunk_info_is_pure_in_content() {
    assert_eq!(chunk("\n\n\n\n").info(), LineInfo { newlines: 4 });
    assert_eq!(chunk("").info(), LineInfo { newlines: 0 });
    assert_eq!(TextChunk::max_len(), 4);
}

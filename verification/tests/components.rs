use my_compressor::tree::{Tree, create_tree, create_node_of_2_mins, build_code_map};
use my_compressor::frequency::parser;
use my_compressor::canonical::sort_entries;
use my_compressor::text::{build_canonical_code, add_header_to_encoded_file, extract_file_from_path,
    usize_to_dec};
use my_compressor::EncodeError;

// Concrete scenario: the tree builder combines c and d first, then b with
// their parent, then a; the resulting code lengths are 1, 2, 3, 3.
#[test]
fn tree_lengths_of_skewed_frequencies() {
    let freq = vec![('a', 5u16), ('b', 2u16), ('c', 1u16), ('d', 1u16)];
    let tree = create_tree(freq);
    let code_map = build_code_map(&tree);
    let len_of = |c: char| code_map.iter().find(|e| e.0 == c).unwrap().1.len();
    assert_eq!(len_of('a'), 1);
    assert_eq!(len_of('b'), 2);
    assert_eq!(len_of('c'), 3);
    assert_eq!(len_of('d'), 3);
}

#[test]
fn node_combination_adds_frequencies() {
    let left = Tree::Leaf('a', 3);
    let right = Tree::Leaf('b', 4);
    let parent = create_node_of_2_mins(left, right);
    assert_eq!(parent.extract_val(), 7);
}

// Concrete scenario: lengths {a:1, b:2, c:3, d:3} yield the canonical codes
// a=0, b=10, c=110, d=111.
#[test]
fn canonical_assignment_of_four_lengths() {
    let code_map = vec![
        ('a', vec![false]),
        ('b', vec![true, false]),
        ('c', vec![true, true, false]),
        ('d', vec![true, true, true]),
    ];
    let table = build_canonical_code(code_map).unwrap();
    let code_of = |c: char| table.iter().find(|e| e.0 == c).unwrap().1.clone();
    assert_eq!(code_of('a'), "0");
    assert_eq!(code_of('b'), "10");
    assert_eq!(code_of('c'), "110");
    assert_eq!(code_of('d'), "111");
}

// Canonical determinism: running the assigner twice on the same input gives
// identical tables.
#[test]
fn canonical_assignment_is_deterministic() {
    let make_map = || vec![
        ('x', vec![false, false]),
        ('e', vec![false, true]),
        ('q', vec![true, false, false]),
        ('t', vec![true, false, true]),
        ('z', vec![true, true]),
    ];
    let first = build_canonical_code(make_map()).unwrap();
    let second = build_canonical_code(make_map()).unwrap();
    assert_eq!(first, second);
}

// Prefix-free invariant on a concrete canonical table.
#[test]
fn canonical_codes_are_prefix_free() {
    let code_map = vec![
        ('a', vec![false]),
        ('b', vec![true, false]),
        ('c', vec![true, true, false]),
        ('d', vec![true, true, true]),
    ];
    let table = build_canonical_code(code_map).unwrap();
    for i in 0..table.len() {
        for j in 0..table.len() {
            if i != j {
                assert!(!table[j].1.starts_with(&table[i].1));
            }
        }
    }
}

// Canonical ordering: within one length class, codes are consecutive and
// follow ascending symbol order.
#[test]
fn canonical_codes_are_consecutive_within_a_class() {
    let code_map = vec![
        ('d', vec![true, true, true]),
        ('c', vec![true, true, false]),
        ('b', vec![true, false]),
        ('a', vec![false]),
    ];
    let table = build_canonical_code(code_map).unwrap();
    let code_of = |c: char| table.iter().find(|e| e.0 == c).unwrap().1.clone();
    // c and d share length 3: c sorts first and d's code is c's plus one.
    assert_eq!(code_of('c'), "110");
    assert_eq!(code_of('d'), "111");
}

// Lengths that no prefix code can carry are rejected instead of wrapping.
#[test]
fn impossible_lengths_are_rejected() {
    let code_map = vec![('a', vec![false]), ('b', vec![true]), ('c', vec![false, true])];
    assert_eq!(build_canonical_code(code_map).unwrap_err(), EncodeError::UnsupportedAlphabet);
}

#[test]
fn parser_counts_every_symbol() {
    let content: Vec<char> = "hello".chars().collect();
    let freq = parser(&content).unwrap();
    let count_of = |c: char| freq.iter().find(|e| e.0 == c).unwrap().1;
    assert_eq!(freq.len(), 4);
    assert_eq!(count_of('h'), 1);
    assert_eq!(count_of('e'), 1);
    assert_eq!(count_of('l'), 2);
    assert_eq!(count_of('o'), 1);
}

#[test]
fn parser_reports_counter_overflow() {
    let content: Vec<char> = std::iter::repeat('a').take(65536).collect();
    assert_eq!(parser(&content).unwrap_err(), EncodeError::FrequencyOverflow);
}

#[test]
fn parser_accepts_the_counter_maximum() {
    let content: Vec<char> = std::iter::repeat('a').take(65535).collect();
    let freq = parser(&content).unwrap();
    assert_eq!(freq.len(), 1);
    assert_eq!(freq[0], ('a', 65535));
}

#[test]
fn sort_orders_by_length_then_symbol() {
    let entries = vec![('z', 2usize), ('a', 3usize), ('m', 2usize), ('b', 1usize)];
    let sorted = sort_entries(entries);
    assert_eq!(sorted, vec![('b', 1), ('m', 2), ('z', 2), ('a', 3)]);
}

#[test]
fn archive_name_loses_path_and_extension() {
    assert_eq!(extract_file_from_path(&String::from("foo/bar/test.zip")), "test");
    assert_eq!(extract_file_from_path(&String::from("plain")), "plain");
    assert_eq!(extract_file_from_path(&String::from("dir/noext")), "noext");
    assert_eq!(extract_file_from_path(&String::from("a.b.c")), "a.b");
}

#[test]
fn header_text_lists_size_length_and_entries() {
    let map = vec![('a', String::from("0")), ('b', String::from("10"))];
    let header = add_header_to_encoded_file(&map, 42);
    assert_eq!(header, "2\n42\na:0\nb:10\n");
}

#[test]
fn decimal_rendering() {
    let digits: String = usize_to_dec(10230).into_iter().collect();
    assert_eq!(digits, "10230");
    let zero: String = usize_to_dec(0).into_iter().collect();
    assert_eq!(zero, "0");
}

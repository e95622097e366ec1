use std::ops::Deref;
use succinct::failure::Failure;
use succinct::wavelet_tree::{construct_codex, get_alphabet, WaveletTreeNode};

const T: &str = "abcafcgbagcb$";

fn create_tree(t: &str) -> WaveletTreeNode {
    let root = WaveletTreeNode::new(t).unwrap();
    match root {
        WaveletTreeNode::Empty => panic!("empty wavelet tree"),
        WaveletTreeNode::Node { .. } => root,
    }
}

fn tree_over_full_alphabet() -> WaveletTreeNode {
    let codex = construct_codex("$abcdefg").unwrap();
    for c in T.chars() {
        assert!(codex.get(&c).is_some());
    }
    WaveletTreeNode::with_codex(T, &codex)
}

fn bits_of(node: &WaveletTreeNode) -> Vec<Vec<u8>> {
    match node {
        WaveletTreeNode::Empty => vec![],
        WaveletTreeNode::Node { bit_vector, left, right, .. } => {
            let mut all = vec![bit_vector.deref().clone()];
            all.extend(bits_of(left));
            all.push(vec![9]);
            all.extend(bits_of(right));
            all
        }
    }
}

fn check_partition(node: &WaveletTreeNode, depth: usize) {
    if let WaveletTreeNode::Node { bit_vector, left, right, .. } = node {
        let length = |child: &WaveletTreeNode| match child {
            WaveletTreeNode::Empty => 0,
            WaveletTreeNode::Node { bit_vector, .. } => bit_vector.len(),
        };
        if depth + 1 < 3 {
            assert_eq!(length(left) + length(right), bit_vector.len());
        } else {
            assert_eq!(length(left) + length(right), 0);
        }
        check_partition(left, depth + 1);
        check_partition(right, depth + 1);
    }
}

#[test]
fn access_works() {
    let root = create_tree(T);
    let codex = root.get_codex().unwrap();

    for i in 0..T.len() {
        assert_eq!(
            root.access(i).unwrap().deref(),
            codex.get(&T.chars().nth(i).unwrap()).unwrap()
        );
    }
}

#[test]
fn wavelet_tree_rank_works() {
    let root = create_tree(T);

    let a = 'a';
    assert_eq!(root.rank(&a, 0), Some(1));
    assert_eq!(root.rank(&a, 1), Some(1));
    assert_eq!(root.rank(&a, 2), Some(1));
    assert_eq!(root.rank(&a, 3), Some(2));
    assert_eq!(root.rank(&a, 4), Some(2));
    assert_eq!(root.rank(&a, 5), Some(2));
    assert_eq!(root.rank(&a, 6), Some(2));
    assert_eq!(root.rank(&a, 7), Some(2));
    assert_eq!(root.rank(&a, 8), Some(3));
    assert_eq!(root.rank(&a, 9), Some(3));
    assert_eq!(root.rank(&a, 10), Some(3));
    assert_eq!(root.rank(&a, 11), Some(3));
    assert_eq!(root.rank(&a, 12), Some(3));
    assert_eq!(root.rank(&a, 13), None);
}

#[test]
fn wavelet_tree_select_works() {
    let root = create_tree(T);
    let a = 'a';
    assert_eq!(root.select(&a, 1), Some(0));
    assert_eq!(root.select(&a, 2), Some(3));
    assert_eq!(root.select(&a, 3), Some(8));
    assert_eq!(root.select(&a, 4), None);
}

#[test]
fn example_over_full_alphabet() {
    let root = tree_over_full_alphabet();
    assert_eq!(root.access(4).unwrap().deref(), &vec![1, 1, 0]);
    assert_eq!(root.rank(&'a', 8), Some(3));
    assert_eq!(root.select(&'a', 3), Some(8));
    let codex = root.get_codex().unwrap();
    assert_eq!(codex.decode(root.access(4).unwrap().deref()), Some('f'));
    for i in 0..T.len() {
        assert_eq!(
            root.access(i).unwrap().deref(),
            codex.get(&T.chars().nth(i).unwrap()).unwrap()
        );
        assert_eq!(
            codex.decode(root.access(i).unwrap().deref()),
            T.chars().nth(i)
        );
    }
}

#[test]
fn boundaries_fail() {
    let root = tree_over_full_alphabet();
    for c in "$abcdefg".chars() {
        assert_eq!(root.select(&c, 0), None);
        assert_eq!(root.rank(&c, T.len()), None);
        assert_eq!(root.rank(&c, T.len() + 7), None);
    }
    assert_eq!(root.access(T.len()).err(), Some(Failure::OutOfRange));
    assert_eq!(root.access(usize::MAX).err(), Some(Failure::OutOfRange));
    assert_eq!(root.rank(&'a', usize::MAX), None);
    assert_eq!(root.select(&'a', 4), None);
    assert_eq!(root.select(&'b', 4), None);
    assert_eq!(root.select(&'$', 2), None);
    assert_eq!(root.select(&'d', 1), None);
    assert_eq!(root.select(&'a', usize::MAX), None);
}

#[test]
fn unknown_symbol_fails() {
    let root = tree_over_full_alphabet();
    assert_eq!(root.rank(&'z', 0), None);
    assert_eq!(root.select(&'z', 1), None);
    let own = create_tree(T);
    assert_eq!(own.rank(&'d', 5), None);
    assert_eq!(own.select(&'d', 1), None);
}

#[test]
fn rank_counts_every_symbol() {
    let root = create_tree(T);
    let n = None;
    let s = |count: usize| Some(count);
    let expected: Vec<(char, Vec<Option<usize>>)> = vec![
        ('$', vec![s(0), s(0), s(0), s(0), s(0), s(0), s(0), s(0), s(0), s(0), s(0), s(0), s(1)]),
        ('a', vec![s(1), s(1), s(1), s(2), s(2), s(2), s(2), s(2), s(3), s(3), s(3), s(3), s(3)]),
        ('b', vec![n, s(1), s(1), s(1), s(1), s(1), s(1), s(2), s(2), s(2), s(2), s(3), s(3)]),
        ('c', vec![n, s(0), s(1), s(1), s(1), s(2), s(2), s(2), s(2), s(2), s(3), s(3), s(3)]),
        ('f', vec![n, n, n, n, s(1), s(1), s(1), s(1), s(1), s(1), s(1), s(1), s(1)]),
        ('g', vec![n, n, n, n, s(0), s(0), s(1), s(1), s(1), s(2), s(2), s(2), s(2)]),
    ];
    for (c, counts) in expected {
        for (i, count) in counts.iter().enumerate() {
            assert_eq!(root.rank(&c, i), *count);
        }
    }
}

#[test]
fn rank_of_symbol_absent_from_text() {
    let root = tree_over_full_alphabet();
    for i in 0..4 {
        assert_eq!(root.rank(&'d', i), None);
        assert_eq!(root.rank(&'e', i), None);
    }
    for i in 4..T.len() {
        assert_eq!(root.rank(&'d', i), Some(0));
        assert_eq!(root.rank(&'e', i), Some(0));
    }
}

#[test]
fn rank_runs_dry_before_first_kindred_symbol() {
    let root = create_tree(T);
    assert_eq!(root.rank(&'b', 0), None);
    assert_eq!(root.rank(&'c', 0), None);
    assert_eq!(root.rank(&'c', 1), Some(0));
    assert_eq!(root.rank(&'f', 3), None);
    assert_eq!(root.rank(&'g', 4), Some(0));
}

#[test]
fn rank_counts_wherever_it_answers() {
    let root = tree_over_full_alphabet();
    let text: Vec<char> = T.chars().collect();
    for c in "$abcdefg".chars() {
        for i in 0..text.len() {
            let true_count = text[..=i].iter().filter(|&&x| x == c).count();
            match root.rank(&c, i) {
                Some(count) => assert_eq!(count, true_count),
                None => assert_eq!(true_count, 0),
            }
        }
    }
}

#[test]
fn select_finds_every_symbol() {
    let root = create_tree(T);
    let expected: Vec<(char, Vec<Option<usize>>)> = vec![
        ('$', vec![Some(12), None, None, None]),
        ('a', vec![Some(0), Some(3), Some(8), None]),
        ('b', vec![Some(1), Some(7), Some(11), None]),
        ('c', vec![Some(2), Some(5), Some(10), None]),
        ('f', vec![Some(4), None, None, None]),
        ('g', vec![Some(6), Some(9), None, None]),
    ];
    for (c, positions) in expected {
        for (k, position) in positions.iter().enumerate() {
            assert_eq!(root.select(&c, k + 1), *position);
        }
    }
}

#[test]
fn select_needs_room_on_the_way_down() {
    let single = create_tree("a");
    assert_eq!(single.rank(&'a', 0), Some(1));
    assert_eq!(single.select(&'a', 1), None);
    let pair = create_tree("ab");
    assert_eq!(pair.rank(&'a', 0), Some(1));
    assert_eq!(pair.rank(&'b', 1), Some(1));
    assert_eq!(pair.select(&'a', 1), None);
    assert_eq!(pair.select(&'b', 1), None);
    let longer = create_tree("abaaa");
    assert_eq!(longer.select(&'a', 1), Some(0));
    assert_eq!(longer.select(&'b', 1), Some(1));
    assert_eq!(longer.select(&'a', 2), Some(2));
    assert_eq!(longer.select(&'a', 3), None);
    assert_eq!(longer.select(&'a', 4), None);
}

#[test]
fn select_fails_within_code_width_of_the_end() {
    let root = create_tree("aaaaa");
    assert_eq!(root.select(&'a', 1), Some(0));
    assert_eq!(root.select(&'a', 2), Some(1));
    assert_eq!(root.select(&'a', 3), None);
    assert_eq!(root.select(&'a', 4), None);
    assert_eq!(root.select(&'a', 5), None);
    assert_eq!(root.select(&'a', 6), None);
    for i in 0..5 {
        assert_eq!(root.rank(&'a', i), Some(i + 1));
    }
}

#[test]
fn select_inverts_rank_where_it_answers() {
    let root = tree_over_full_alphabet();
    let text: Vec<char> = T.chars().collect();
    for i in 0..text.len() {
        let c = text[i];
        let k = root.rank(&c, i).unwrap();
        assert!(k >= 1);
        match root.select(&c, k) {
            Some(p) => assert_eq!(p, i),
            None => assert!(false, "select fails for an occurrence of the example text"),
        }
    }
}

#[test]
fn rank_inverts_select() {
    let root = tree_over_full_alphabet();
    let text: Vec<char> = T.chars().collect();
    for c in "$abcdefg".chars() {
        for k in 0..6 {
            if let Some(p) = root.select(&c, k) {
                assert_eq!(text[p], c);
                assert_eq!(root.rank(&c, p), Some(k));
            }
        }
    }
}

#[test]
fn empty_text_gives_empty_tree() {
    let root = WaveletTreeNode::new("").unwrap();
    assert!(matches!(root, WaveletTreeNode::Empty));
    assert!(root.get_codex().is_none());
    assert_eq!(root.access(0).err(), Some(Failure::OutOfRange));
    assert_eq!(root.rank(&'a', 0), None);
    assert_eq!(root.select(&'a', 1), None);
    let codex = construct_codex("ab").unwrap();
    let other = WaveletTreeNode::with_codex("", &codex);
    assert!(matches!(other, WaveletTreeNode::Empty));
}

#[test]
fn too_many_symbols_are_refused() {
    assert_eq!(construct_codex("abcdefghi").err(), Some(Failure::CodexCollision));
    assert_eq!(construct_codex("ihgfedcbaabc").err(), Some(Failure::CodexCollision));
    assert_eq!(WaveletTreeNode::new("abcdefghi").err(), Some(Failure::CodexCollision));
    assert_eq!(WaveletTreeNode::new("the quick brown fox").err(), Some(Failure::CodexCollision));
    assert!(construct_codex("abcdefgh").is_ok());
    assert!(construct_codex("hgfedcbaabcdefgh").is_ok());
    assert!(WaveletTreeNode::new("abcdefgh").is_ok());
}

#[test]
fn codex_assigns_sorted_ranks() {
    let codex = construct_codex("$abcdefg").unwrap();
    assert_eq!(codex.len(), 8);
    assert_eq!(codex.width(), 3);
    assert_eq!(codex.get(&'$'), Some(&vec![0, 0, 0]));
    assert_eq!(codex.get(&'a'), Some(&vec![0, 0, 1]));
    assert_eq!(codex.get(&'b'), Some(&vec![0, 1, 0]));
    assert_eq!(codex.get(&'c'), Some(&vec![0, 1, 1]));
    assert_eq!(codex.get(&'d'), Some(&vec![1, 0, 0]));
    assert_eq!(codex.get(&'e'), Some(&vec![1, 0, 1]));
    assert_eq!(codex.get(&'f'), Some(&vec![1, 1, 0]));
    assert_eq!(codex.get(&'g'), Some(&vec![1, 1, 1]));
    assert_eq!(codex.get(&'h'), None);
}

#[test]
fn codex_sorts_and_drops_repeats() {
    let codex = construct_codex("cabbac").unwrap();
    assert_eq!(codex.len(), 3);
    assert_eq!(codex.get(&'a'), Some(&vec![0, 0, 0]));
    assert_eq!(codex.get(&'b'), Some(&vec![0, 0, 1]));
    assert_eq!(codex.get(&'c'), Some(&vec![0, 1, 0]));
    let marks = construct_codex("b$!").unwrap();
    assert_eq!(marks.get(&'!'), Some(&vec![0, 0, 0]));
    assert_eq!(marks.get(&'$'), Some(&vec![0, 0, 1]));
    assert_eq!(marks.get(&'b'), Some(&vec![0, 1, 0]));
}

#[test]
fn codex_decodes_its_codes() {
    let codex = construct_codex("$abcfg").unwrap();
    assert_eq!(codex.decode(&vec![0, 0, 0]), Some('$'));
    assert_eq!(codex.decode(&vec![1, 0, 0]), Some('f'));
    assert_eq!(codex.decode(&vec![1, 0, 1]), Some('g'));
    assert_eq!(codex.decode(&vec![1, 1, 0]), None);
    assert_eq!(codex.decode(&vec![1, 0]), None);
    assert_eq!(codex.decode(&vec![]), None);
    for c in "$abcfg".chars() {
        assert_eq!(codex.decode(codex.get(&c).unwrap()), Some(c));
    }
}

#[test]
fn empty_codex_has_no_width() {
    let codex = construct_codex("").unwrap();
    assert_eq!(codex.len(), 0);
    assert_eq!(codex.width(), 0);
    assert_eq!(codex.get(&'a'), None);
}

#[test]
fn codex_copy_keeps_codes() {
    let codex = construct_codex("$abcfg").unwrap();
    let copy = codex.clone();
    assert_eq!(copy.len(), codex.len());
    for c in "$abcfgz".chars() {
        assert_eq!(copy.get(&c), codex.get(&c));
    }
}

#[test]
fn alphabet_lists_sentinel_first() {
    assert_eq!(get_alphabet(T), "$abcfg");
    assert_eq!(get_alphabet("banana"), "abn");
    assert_eq!(get_alphabet(""), "");
    assert_eq!(get_alphabet("$$$"), "$");
    assert_eq!(get_alphabet("b!a$ 1"), "$ !1ab");
    assert_eq!(get_alphabet("zyx"), "xyz");
}

#[test]
fn tree_keeps_codex_of_its_alphabet() {
    let root = create_tree(T);
    let codex = root.get_codex().unwrap();
    assert_eq!(codex.len(), 6);
    assert_eq!(codex.get(&'f'), Some(&vec![1, 0, 0]));
    assert_eq!(codex.get(&'g'), Some(&vec![1, 0, 1]));
    assert_eq!(codex.get(&'d'), None);
    assert_eq!(root.access(4).unwrap().deref(), &vec![1, 0, 0]);
}

#[test]
fn tree_has_expected_bit_vectors() {
    let root = tree_over_full_alphabet();
    match &root {
        WaveletTreeNode::Empty => panic!("empty wavelet tree"),
        WaveletTreeNode::Node { bit_vector, left, right, .. } => {
            assert_eq!(bit_vector.deref(), &vec![0, 0, 0, 0, 1, 0, 1, 0, 0, 1, 0, 0, 0]);
            match left.as_ref() {
                WaveletTreeNode::Empty => panic!("empty left child"),
                WaveletTreeNode::Node { bit_vector, left, right, .. } => {
                    assert_eq!(bit_vector.deref(), &vec![0, 1, 1, 0, 1, 1, 0, 1, 1, 0]);
                    match left.as_ref() {
                        WaveletTreeNode::Empty => panic!("empty node for prefix 00"),
                        WaveletTreeNode::Node { bit_vector, left, right, .. } => {
                            assert_eq!(bit_vector.deref(), &vec![1, 1, 1, 0]);
                            assert!(matches!(left.as_ref(), WaveletTreeNode::Empty));
                            assert!(matches!(right.as_ref(), WaveletTreeNode::Empty));
                        }
                    }
                    match right.as_ref() {
                        WaveletTreeNode::Empty => panic!("empty node for prefix 01"),
                        WaveletTreeNode::Node { bit_vector, .. } => {
                            assert_eq!(bit_vector.deref(), &vec![0, 1, 1, 0, 1, 0]);
                        }
                    }
                }
            }
            match right.as_ref() {
                WaveletTreeNode::Empty => panic!("empty right child"),
                WaveletTreeNode::Node { bit_vector, left, right, .. } => {
                    assert_eq!(bit_vector.deref(), &vec![1, 1, 1]);
                    assert!(matches!(left.as_ref(), WaveletTreeNode::Empty));
                    match right.as_ref() {
                        WaveletTreeNode::Empty => panic!("empty node for prefix 11"),
                        WaveletTreeNode::Node { bit_vector, .. } => {
                            assert_eq!(bit_vector.deref(), &vec![0, 1, 1]);
                        }
                    }
                }
            }
        }
    }
}

#[test]
fn building_twice_gives_same_tree() {
    let codex = construct_codex("$abcdefg").unwrap();
    let first = WaveletTreeNode::with_codex(T, &codex);
    let second = WaveletTreeNode::with_codex(T, &codex);
    assert_eq!(bits_of(&first), bits_of(&second));
    assert_eq!(bits_of(&create_tree(T)), bits_of(&create_tree(T)));
    assert_ne!(bits_of(&first), bits_of(&create_tree(T)));
}

#[test]
fn children_share_out_the_bits_of_their_parent() {
    let root = tree_over_full_alphabet();
    match &root {
        WaveletTreeNode::Empty => panic!("empty wavelet tree"),
        WaveletTreeNode::Node { bit_vector, .. } => assert_eq!(bit_vector.len(), T.len()),
    }
    check_partition(&root, 0);
    check_partition(&create_tree(T), 0);
    check_partition(&create_tree("a"), 0);
}

#[test]
fn positions_count_characters() {
    let text = "añbñ";
    let root = create_tree(text);
    let codex = root.get_codex().unwrap();
    assert_eq!(codex.len(), 3);
    assert_eq!(codex.get(&'ñ'), Some(&vec![0, 1, 0]));
    assert_eq!(root.access(1).unwrap().deref(), &vec![0, 1, 0]);
    assert_eq!(root.access(3).unwrap().deref(), &vec![0, 1, 0]);
    assert_eq!(root.access(4).err(), Some(Failure::OutOfRange));
    assert_eq!(root.rank(&'ñ', 3), Some(2));
    assert_eq!(root.rank(&'ñ', 4), None);
}

#[test]
fn failures_of_rank_are_named() {
    let root = tree_over_full_alphabet();
    assert_eq!(root.try_rank(&'a', 8), Ok(3));
    assert_eq!(root.try_rank(&'d', 12), Ok(0));
    assert_eq!(root.try_rank(&'a', T.len()), Err(Failure::OutOfRange));
    assert_eq!(root.try_rank(&'a', usize::MAX), Err(Failure::OutOfRange));
    assert_eq!(root.try_rank(&'b', 0), Err(Failure::OutOfRange));
    assert_eq!(root.try_rank(&'g', 3), Err(Failure::OutOfRange));
    assert_eq!(root.try_rank(&'z', 0), Err(Failure::UnknownSymbol));
    assert_eq!(root.try_rank(&'z', T.len()), Err(Failure::UnknownSymbol));
    let own = create_tree(T);
    assert_eq!(own.try_rank(&'d', 5), Err(Failure::UnknownSymbol));
    for c in "$abcdefgz".chars() {
        for i in 0..T.len() + 2 {
            assert_eq!(root.try_rank(&c, i).ok(), root.rank(&c, i));
        }
    }
}

#[test]
fn failures_of_select_are_named() {
    let root = tree_over_full_alphabet();
    assert_eq!(root.try_select(&'a', 3), Ok(8));
    for c in "$abcdefg".chars() {
        assert_eq!(root.try_select(&c, 0), Err(Failure::InvalidCount));
    }
    assert_eq!(root.try_select(&'a', 4), Err(Failure::InvalidCount));
    assert_eq!(root.try_select(&'$', 2), Err(Failure::InvalidCount));
    assert_eq!(root.try_select(&'d', 1), Err(Failure::InvalidCount));
    assert_eq!(root.try_select(&'a', usize::MAX), Err(Failure::InvalidCount));
    assert_eq!(root.try_select(&'z', 1), Err(Failure::UnknownSymbol));
    assert_eq!(root.try_select(&'z', 0), Err(Failure::UnknownSymbol));
    let short = create_tree("aaaaa");
    assert_eq!(short.try_select(&'a', 2), Ok(1));
    assert_eq!(short.try_select(&'a', 3), Err(Failure::OutOfRange));
    assert_eq!(short.try_select(&'a', 5), Err(Failure::OutOfRange));
    assert_eq!(short.try_select(&'a', 6), Err(Failure::InvalidCount));
    assert_eq!(short.try_select(&'a', 0), Err(Failure::InvalidCount));
    let single = create_tree("a");
    assert_eq!(single.try_select(&'a', 1), Err(Failure::OutOfRange));
    for c in "$abcdefgz".chars() {
        for k in 0..6 {
            assert_eq!(root.try_select(&c, k).ok(), root.select(&c, k));
        }
    }
}

#[test]
fn failures_of_the_empty_tree_are_named() {
    let root = WaveletTreeNode::new("").unwrap();
    assert_eq!(root.access(0).err(), Some(Failure::OutOfRange));
    assert_eq!(root.try_rank(&'a', 0), Err(Failure::UnknownSymbol));
    assert_eq!(root.try_select(&'a', 1), Err(Failure::UnknownSymbol));
    assert_eq!(root.try_select(&'a', 0), Err(Failure::UnknownSymbol));
}

use morpho::trie::{Node, Trie};

fn distinct_prefixes(tokens: &[&str]) -> usize {
    let mut prefixes: Vec<&str> = Vec::new();

    for token in tokens {
        for (idx, _) in token.char_indices() {
            let prefix = &token[0..idx + 1];
            if !prefixes.contains(&prefix) {
                prefixes.push(prefix)
            };
        }
    }
    prefixes.len()
}

#[test]
fn test_distinct_prefixes() {
    let input = ["creative", "creature"];
    let output = distinct_prefixes(&input);
    assert_eq!(output, 11);
}

#[test]
fn test_no_duplicate_nodes() {
    let mut trie = Trie::new();
    let input = ["car", "cart", "carts"];
    let num_distinct_prefixes = distinct_prefixes(&input);
    trie.add_tokens(&input);

    assert_eq!(trie.node_count(), 1 + num_distinct_prefixes); // All nodes are unique
}

#[test]
fn test_terminal_nodes_exist_and_can_have_children() {
    let mut trie = Trie::new();
    trie.add_tokens(&["car", "cart", "carts"]);
    let terminal_nodes = trie.nodes().into_iter().filter(|n| n.is_terminal).collect::<Vec<&Node>>();
    let terminal_nodes_with_children = terminal_nodes
        .iter()
        .filter(|n| trie.children_of(n.id).is_some())
        .collect::<Vec<&&Node>>();
    let mut node_values = terminal_nodes.iter().map(|n| n.value).collect::<Vec<u8>>();

    assert_eq!(terminal_nodes_with_children.len(), 2);
    assert_eq!(terminal_nodes.len(), 3);
    assert_eq!(node_values.sort(), vec![b'r', b't', b's'].sort());
}

#[test]
fn test_bytes_to_path() {
    let mut trie = Trie::new();
    trie.add_token(b"cart");
    let path = trie.bytes_to_path("carts".as_bytes()).unwrap();
    let prefix = trie.traverse_path(&path);
    assert_eq!(prefix.as_slice(), b"cart");
}

#[test]
fn test_valid_next_nodes() {
    let mut trie = Trie::new();
    trie.add_tokens(&["bat", "board", "body", "bottom"]);
    let path = trie.bytes_to_path("bo".as_bytes()).unwrap();
    let next_nodes = trie.valid_next_nodes(path).unwrap();

    assert_eq!(next_nodes.len(), 3);
}

#[test]
fn test_valid_next_bytes() {
    let mut trie = Trie::new();
    trie.add_token(b"cards");
    trie.add_token(b"cardiology");
    let mut next_bytes = trie.valid_next_bytes(b"card").unwrap();
    assert_eq!(next_bytes.sort(), vec![b'i', b's'].sort());
}

#[test]
fn test_tokens_with_prefix() {
    let mut trie = Trie::new();
    trie.add_token(b"bat");
    trie.add_token(b"board");
    trie.add_token(b"body");
    trie.add_token(b"bottom");
    let tokens = trie.find_tokens_with_prefix(b"bo");
    assert_eq!(tokens.is_none(), false);
    assert_eq!(tokens.unwrap(), vec![b"board".to_vec(), b"body".to_vec(), b"bottom".to_vec()]);
}

#[test]
fn adding_a_token_twice_changes_nothing() {
    let mut trie = Trie::new();
    trie.add_token(b"cart");
    let count = trie.node_count();
    trie.add_token(b"cart");
    assert_eq!(trie.node_count(), count);
    let terminals = trie.nodes().into_iter().filter(|n| n.is_terminal).count();
    assert_eq!(terminals, 1);
    assert_eq!(trie.find_tokens_with_prefix(b"c").unwrap(), vec![b"cart".to_vec()]);
}

#[test]
fn adding_a_spelled_prefix_makes_it_a_token() {
    let mut trie = Trie::new();
    trie.add_token(b"cart");
    let count = trie.node_count();
    trie.add_token(b"car");
    assert_eq!(trie.node_count(), count);
    let terminals = trie.nodes().into_iter().filter(|n| n.is_terminal).count();
    assert_eq!(terminals, 2);
    assert_eq!(trie.find_tokens_with_prefix(b"car").unwrap(), vec![b"car".to_vec(), b"cart".to_vec()]);
    trie.add_token(b"car");
    assert_eq!(trie.nodes().into_iter().filter(|n| n.is_terminal).count(), 2);
}

#[test]
fn empty_token_adds_nothing() {
    let mut trie = Trie::new();
    trie.add_token(b"");
    assert_eq!(trie.node_count(), 1);
    assert_eq!(trie.nodes().into_iter().filter(|n| n.is_terminal).count(), 0);
}

#[test]
fn node_count_is_distinct_prefixes_plus_root() {
    let mut trie = Trie::new();
    let input = ["creative", "creature"];
    trie.add_tokens(&input);
    assert_eq!(trie.node_count(), 1 + 11);
    assert_eq!(Trie::new().node_count(), 1);
}

#[test]
fn inserted_token_is_found_whole() {
    let mut trie = Trie::new();
    trie.add_tokens(&["board", "body"]);
    let path = trie.bytes_to_path(b"body").unwrap();
    assert_eq!(path.len(), 4);
    assert_eq!(trie.traverse_path(&path), b"body".to_vec());
    let partial = trie.bytes_to_path(b"bxdy").unwrap();
    assert_eq!(trie.traverse_path(&partial), b"b".to_vec());
}

#[test]
fn empty_trie_walks() {
    let trie = Trie::new();
    assert!(trie.bytes_to_path(b"a").is_none());
    assert_eq!(trie.bytes_to_path(b"").unwrap(), Vec::<u64>::new());
    assert!(trie.valid_next_bytes(b"a").is_none());
    assert!(trie.valid_next_bytes(b"").is_none());
    assert!(trie.find_tokens_with_prefix(b"a").is_none());
    assert!(trie.valid_next_nodes(vec![]).is_none());
}

#[test]
fn unrooted_paths_have_no_next_nodes() {
    let mut trie = Trie::new();
    trie.add_tokens(&["ab", "cd"]);
    let path = trie.bytes_to_path(b"ab").unwrap();
    assert!(trie.valid_next_nodes(vec![path[1]]).is_none());
    assert_eq!(trie.valid_next_nodes(vec![path[0]]).unwrap().len(), 1);
}

#[test]
fn next_bytes_cases() {
    let mut trie = Trie::new();
    trie.add_tokens(&["bat", "board", "body"]);
    let next: Vec<u8> = trie.valid_next_bytes(b"bo").unwrap().into_iter().copied().collect();
    assert_eq!(next, vec![b'a', b'd']);
    let first: Vec<u8> = trie.valid_next_bytes(b"b").unwrap().into_iter().copied().collect();
    assert_eq!(first, vec![b'a', b'o']);
    assert!(trie.valid_next_bytes(b"x").is_none());
    assert!(trie.valid_next_bytes(b"bat").is_none());
    assert!(trie.valid_next_bytes(b"bx").is_none());
    assert!(trie.valid_next_bytes(b"bot").is_none());
}

#[test]
fn found_tokens_include_those_below_other_tokens() {
    let mut trie = Trie::new();
    trie.add_tokens(&["car", "cart", "cat"]);
    assert_eq!(
        trie.find_tokens_with_prefix(b"ca").unwrap(),
        vec![b"car".to_vec(), b"cart".to_vec(), b"cat".to_vec()]
    );
    assert_eq!(trie.find_tokens_with_prefix(b"cart").unwrap(), vec![b"cart".to_vec()]);
    assert_eq!(trie.find_tokens_with_prefix(b"car").unwrap(), vec![b"car".to_vec(), b"cart".to_vec()]);
}

#[test]
fn unknown_prefixes_find_nothing() {
    let mut trie = Trie::new();
    trie.add_tokens(&["bat", "cat"]);
    assert!(trie.find_tokens_with_prefix(b"bx").is_none());
    assert!(trie.find_tokens_with_prefix(b"xb").is_none());
    assert!(trie.find_tokens_with_prefix(b"bats").is_none());
    assert!(trie.valid_next_bytes(b"cx").is_none());
    assert!(trie.valid_next_bytes(b"xb").is_none());
}

#[test]
fn path_token_difference_cases() {
    let trie = Trie::new();
    assert_eq!(trie.path_token_difference(Some(vec![1, 2]), b"abcd"), b"cd".to_vec());
    assert_eq!(trie.path_token_difference(None, b"abcd"), b"abcd".to_vec());
}

#[test]
fn add_node_and_add_child_record_raw_edges() {
    let mut trie = Trie::new();
    let id = trie.add_node(b'x', true).id;
    assert_eq!(id, 1);
    trie.add_child(0, id);
    assert_eq!(trie.children_of(0).unwrap(), &vec![1]);
    assert!(trie.children_of(1).is_none());
}

#[test]
fn later_tokens_keep_earlier_ones() {
    let mut trie = Trie::new();
    trie.add_token(b"cart");
    trie.add_tokens(&["dog", "card", "do"]);
    let path = trie.bytes_to_path(b"cart").unwrap();
    assert_eq!(trie.traverse_path(&path), b"cart".to_vec());
    assert_eq!(trie.find_tokens_with_prefix(b"car").unwrap(), vec![b"cart".to_vec(), b"card".to_vec()]);
    assert_eq!(trie.find_tokens_with_prefix(b"d").unwrap(), vec![b"do".to_vec(), b"dog".to_vec()]);
}

#[test]
fn new_trie_has_no_children() {
    let trie = Trie::new();
    assert!(trie.children_of(0).is_none());
    assert_eq!(trie.node_count(), 1);
    assert!(!trie.nodes()[0].is_terminal);
}

#[test]
fn one_token_makes_a_chain_from_the_root() {
    let mut trie = Trie::new();
    trie.add_token(b"cart");
    assert_eq!(trie.node_count(), 5);
    let root_children = trie.children_of(0).unwrap();
    assert_eq!(root_children.len(), 1);
    let nodes = trie.nodes();
    assert_eq!(nodes[root_children[0] as usize].value, b'c');
    let terminals: Vec<u8> = nodes.iter().filter(|n| n.is_terminal).map(|n| n.value).collect();
    assert_eq!(terminals, vec![b't']);
    assert_eq!(trie.children_of(1).unwrap(), &vec![2]);
    assert_eq!(trie.children_of(3).unwrap(), &vec![4]);
    assert!(trie.children_of(4).is_none());
}

#[test]
fn new_children_go_after_their_siblings() {
    let mut trie = Trie::new();
    trie.add_tokens(&["ba", "bo", "bi"]);
    let b = trie.children_of(0).unwrap()[0];
    let kids = trie.children_of(b).unwrap().clone();
    let nodes = trie.nodes();
    let bytes: Vec<u8> = kids.iter().map(|k| nodes[*k as usize].value).collect();
    assert_eq!(bytes, vec![b'a', b'o', b'i']);
    assert_eq!(
        trie.find_tokens_with_prefix(b"b").unwrap(),
        vec![b"ba".to_vec(), b"bo".to_vec(), b"bi".to_vec()]
    );
}

#[test]
fn add_node_takes_the_next_free_id() {
    let mut trie = Trie::new();
    trie.add_token(b"ab");
    let node = trie.add_node(b'z', false);
    assert_eq!(node.id, 3);
    assert_eq!(node.value, b'z');
    assert_eq!(trie.node_count(), 4);
}

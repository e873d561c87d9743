use bintrie::{BinTrie, FilterHeuristic, Heuristic, SearchHeuristic};

fn bits(n: u32, level: u32) -> bool {
    match n {
        3 => false,
        5 => level == 1,
        7 => level != 1,
        _ => true,
    }
}

fn three_five_seven() -> BinTrie {
    let mut trie = BinTrie::new();
    assert_eq!(trie.insert(3, |n| bits(3, n), bits), None);
    assert_eq!(trie.insert(5, |n| bits(5, n), bits), None);
    assert_eq!(trie.insert(7, |n| bits(7, n), bits), None);
    trie
}

#[test]
fn single_item_under_constant_key() {
    let mut trie = BinTrie::new_depth(4);
    assert_eq!(trie.insert(5, |_| false, |_, _| false), None);
    assert_eq!(trie.items().collect(), vec![5]);
    assert_eq!(trie.get(|_| false), Some(5));
    assert_eq!(trie.get(|_| true), None);
}

#[test]
fn default_depth_insert_and_items() {
    let mut trie = BinTrie::new();
    assert_eq!(trie.depth(), 8192);
    trie.insert(3, |_| false, |_, _| false);
    assert_eq!(trie.items().collect(), vec![3]);
}

#[test]
fn default_is_an_empty_trie_of_depth_8192() {
    let trie = BinTrie::default();
    assert_eq!(trie.depth(), 8192);
    assert_eq!(trie.items().collect(), Vec::<u32>::new());
    let copy = trie.clone();
    assert_eq!(copy.depth(), 8192);
}

#[test]
fn empty_trie_yields_nothing() {
    let trie = BinTrie::new_depth(1);
    assert_eq!(trie.items().collect(), Vec::<u32>::new());
    assert_eq!(trie.items().next(), None);
    assert_eq!(trie.get(|_| false), None);
    assert_eq!(trie.explore(FilterHeuristic(|_| true)).collect(), Vec::<u32>::new());
}

#[test]
fn items_come_depth_first_false_side_first() {
    let trie = three_five_seven();
    assert_eq!(trie.items().collect(), vec![3, 5, 7]);
    let mut iter = trie.items();
    assert_eq!(iter.next(), Some(3));
    assert_eq!(iter.next(), Some(5));
    assert_eq!(iter.next(), Some(7));
    assert_eq!(iter.next(), None);
    assert_eq!(iter.next(), None);
    assert_eq!(trie.items().collect(), vec![3, 5, 7]);
}

#[test]
fn get_finds_each_item_by_its_key() {
    let trie = three_five_seven();
    assert_eq!(trie.get(|n| bits(3, n)), Some(3));
    assert_eq!(trie.get(|n| bits(5, n)), Some(5));
    assert_eq!(trie.get(|n| bits(7, n)), Some(7));
}

#[test]
fn items_do_not_depend_on_insertion_order() {
    let mut trie = BinTrie::new();
    trie.insert(7, |n| bits(7, n), bits);
    trie.insert(5, |n| bits(5, n), bits);
    trie.insert(3, |n| bits(3, n), bits);
    let mut items = trie.items().collect();
    items.sort();
    assert_eq!(items, vec![3, 5, 7]);
}

#[test]
fn filter_accepting_true_sees_only_true_turns() {
    let trie = three_five_seven();
    assert_eq!(trie.explore(FilterHeuristic(|n| n)).collect(), vec![7]);
    assert_eq!(trie.explore(FilterHeuristic(|n: bool| !n)).collect(), vec![3]);
    assert_eq!(trie.explore(FilterHeuristic(|_| true)).collect(), vec![3, 5, 7]);
    assert_eq!(trie.explore(FilterHeuristic(|_| false)).collect(), Vec::<u32>::new());
}

#[test]
fn filter_with_a_level_counter_goes_left_then_right() {
    let trie = three_five_seven();
    let mut level = 0;
    let found = trie
        .explore(FilterHeuristic(move |n: bool| {
            level += 1;
            match level {
                1 => !n,
                2 => n,
                _ => false,
            }
        }))
        .collect();
    assert_eq!(found, vec![5]);
}

#[test]
fn search_orders_the_sides() {
    let trie = three_five_seven();
    assert_eq!(trie.explore(SearchHeuristic(|_| false, false)).collect(), vec![3, 5, 7]);
    assert_eq!(trie.explore(SearchHeuristic(|_| true, false)).collect(), vec![5, 3, 7]);
    assert_eq!(trie.explore(SearchHeuristic(|n: bool| !n, true)).collect(), vec![7, 5, 3]);
    let mut iter = trie.explore(SearchHeuristic(|n: bool| n, true));
    assert_eq!(iter.next(), Some(7));
    assert_eq!(iter.next(), Some(3));
    assert_eq!(iter.next(), Some(5));
    assert_eq!(iter.next(), None);
}

#[test]
fn same_key_at_depth_bound_replaces() {
    let mut trie = BinTrie::new_depth(3);
    assert_eq!(trie.insert(11, |_| true, |_, _| true), None);
    assert_eq!(trie.insert(12, |_| true, |_, _| true), Some(11));
    assert_eq!(trie.get(|_| true), Some(12));
    assert_eq!(trie.items().collect(), vec![12]);
}

#[test]
fn depth_one_overwrites_at_the_root() {
    let mut trie = BinTrie::new_depth(1);
    assert_eq!(trie.insert(1, |_| false, |_, _| false), None);
    assert_eq!(trie.insert(2, |_| true, |_, _| false), None);
    assert_eq!(trie.insert(9, |_| false, |_, _| false), Some(1));
    assert_eq!(trie.items().collect(), vec![9, 2]);
}

#[test]
fn largest_payload_round_trips() {
    let mut trie = BinTrie::new();
    assert_eq!(trie.insert(0x7fff_ffff, |_| true, |_, _| true), None);
    assert_eq!(trie.insert(0, |_| false, |_, _| false), None);
    assert_eq!(trie.get(|_| true), Some(0x7fff_ffff));
    assert_eq!(trie.get(|_| false), Some(0));
    assert_eq!(trie.items().collect(), vec![0, 0x7fff_ffff]);
}

#[test]
fn split_moves_the_old_leaf_one_level_down() {
    let mut trie = BinTrie::new_depth(8);
    let key = |item: u32, level: u32| (item >> level) & 1 == 1;
    for item in [0b0000u32, 0b1000, 0b0100, 0b0010, 0b0001] {
        assert_eq!(trie.insert(item, |n| key(item, n), key), None);
    }
    for item in [0b0000u32, 0b1000, 0b0100, 0b0010, 0b0001] {
        assert_eq!(trie.get(|n| key(item, n)), Some(item));
    }
    // A lookup follows the key to the first leaf on its path and returns it.
    assert_eq!(trie.get(|n| key(0b1100, n)), Some(0b0100));
    assert_eq!(trie.items().collect(), vec![0b0000, 0b1000, 0b0100, 0b0010, 0b0001]);
}

#[derive(Clone)]
struct CountingDown {
    left: u32,
    entered: Vec<bool>,
}

impl Heuristic for CountingDown {
    fn enter(&mut self, side: bool) {
        self.left -= 1;
        self.entered.push(side);
    }

    fn iter(&self) -> Vec<bool> {
        if self.left > 0 {
            vec![false, true]
        } else {
            vec![true]
        }
    }

    fn fork(&self) -> Self {
        self.clone()
    }
}

#[test]
fn each_branch_starts_from_the_state_at_its_node() {
    let mut trie = BinTrie::new_depth(8);
    let key = |item: u32, level: u32| (item >> level) & 1 == 1;
    for item in [0b00u32, 0b10, 0b01, 0b11] {
        trie.insert(item, |n| key(item, n), key);
    }
    assert_eq!(trie.items().collect(), vec![0b00, 0b10, 0b01, 0b11]);
    // With two descents allowed, both branches below the root are explored in full.
    let two = CountingDown { left: 2, entered: Vec::new() };
    assert_eq!(trie.explore(two).collect(), vec![0b00, 0b10, 0b01, 0b11]);
    // With one descent allowed, each branch is left with the `true` side only:
    // the second branch is not cut short by the descent into the first.
    let one = CountingDown { left: 1, entered: Vec::new() };
    assert_eq!(trie.explore(one).collect(), vec![0b10, 0b11]);
}

#[test]
fn node_count_grows_by_one_per_split() {
    let mut trie = BinTrie::new_depth(8);
    assert_eq!(trie.node_count(), 1);
    trie.insert(1, |_| false, |_, _| false);
    assert_eq!(trie.node_count(), 1);
    // The second key agrees with the first at levels 0 and 1 and leaves it at level 2.
    trie.insert(2, |n| n == 2, |_, _| false);
    assert_eq!(trie.node_count(), 3);
    assert_eq!(trie.get(|_| false), Some(1));
    assert_eq!(trie.get(|n| n == 2), Some(2));
    assert_eq!(trie.items().collect(), vec![1, 2]);
}

#[test]
fn same_key_splits_down_to_the_depth_bound() {
    let mut trie = BinTrie::new_depth(4);
    assert_eq!(trie.insert(21, |_| false, |_, _| false), None);
    assert_eq!(trie.node_count(), 1);
    assert_eq!(trie.insert(22, |_| false, |_, _| false), Some(21));
    assert_eq!(trie.node_count(), 4);
    assert_eq!(trie.get(|_| false), Some(22));
    assert_eq!(trie.items().collect(), vec![22]);
}

#[test]
fn every_item_stays_under_its_key() {
    let mut trie = BinTrie::new_depth(16);
    let key = |item: u32, level: u32| (item >> level) & 1 == 1;
    for item in 0..256u32 {
        let item = item.wrapping_mul(37) % 256;
        trie.insert(item, |n| key(item, n), key);
    }
    for item in 0..256u32 {
        assert_eq!(trie.get(|n| key(item, n)), Some(item));
    }
    let mut items = trie.items().collect();
    items.sort();
    assert_eq!(items, (0..256u32).collect::<Vec<u32>>());
    let mut explored = trie.explore(FilterHeuristic(|_| true)).collect();
    explored.sort();
    assert_eq!(explored, (0..256u32).collect::<Vec<u32>>());
}

#[test]
fn inserting_an_item_again_replaces_it_with_itself() {
    let mut trie = BinTrie::new_depth(8);
    let key = |item: u32, level: u32| (item >> level) & 1 == 1;
    assert_eq!(trie.insert(6, |n| key(6, n), key), None);
    assert_eq!(trie.insert(9, |n| key(9, n), key), None);
    assert_eq!(trie.insert(6, |n| key(6, n), key), Some(6));
    assert_eq!(trie.get(|n| key(6, n)), Some(6));
    assert_eq!(trie.get(|n| key(9, n)), Some(9));
    assert_eq!(trie.items().collect(), vec![6, 9]);
}

#[test]
fn small_tries_have_room() {
    let mut trie = BinTrie::new();
    assert!(trie.has_room());
    trie.insert(1, |_| false, |_, _| false);
    trie.insert(2, |n| n == 3, |_, _| false);
    assert_eq!(trie.node_count(), 4);
    assert!(trie.has_room());
    assert!(BinTrie::new_depth(u32::MAX).has_room() == false);
    assert!(BinTrie::new_depth(0x8000_0000).has_room());
}

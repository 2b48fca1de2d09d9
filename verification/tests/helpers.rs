use ai_lmao::search::bidirectional_best_first::stitch_paths;
use ai_lmao::search::relaxation::find_node;
use ai_lmao::search::relaxation::relax;
use ai_lmao::search::result::copy_path;
use ai_lmao::search::result::extend_path;
use ai_lmao::search::state_graph::contains_node;
use ai_lmao::search::state_graph::find_key;
use ai_lmao::search::state_graph::first_index;
use ai_lmao::search::SearchResult;

fn at(node: u32, cost: u16, path: Vec<u32>) -> SearchResult<u32, u16> {
    SearchResult { node, cost, path }
}

#[test]
fn first_index_finds_the_first_of_several() {
    assert_eq!(first_index(&[4, 7, 4, 9], 4), Some(0));
    assert_eq!(first_index(&[4, 7, 7, 9], 7), Some(1));
    assert_eq!(first_index(&[4, 7, 4, 9], 5), None);
    assert_eq!(first_index::<u32>(&[], 5), None);
}

#[test]
fn contains_node_says_whether_a_node_is_listed() {
    assert!(contains_node(&[4, 7, 9], 9));
    assert!(!contains_node(&[4, 7, 9], 5));
}

#[test]
fn find_key_finds_the_first_entry_with_the_key() {
    let list = vec![(3, 'a'), (5, 'b'), (3, 'c')];
    assert_eq!(find_key(&list, 3), Some(0));
    assert_eq!(find_key(&list, 5), Some(1));
    assert_eq!(find_key(&list, 4), None);
}

#[test]
fn find_node_finds_the_result_at_a_node() {
    let table = vec![at(1, 0, vec![1]), at(2, 5, vec![1, 2])];
    assert_eq!(find_node(&table, 2), Some(1));
    assert_eq!(find_node(&table, 3), None);
}

#[test]
fn copy_path_and_extend_path_leave_the_path_alone() {
    let path = vec![1, 2, 3];
    assert_eq!(copy_path(&path), vec![1, 2, 3]);
    assert_eq!(extend_path(&path, 9), vec![1, 2, 3, 9]);
    assert_eq!(path, vec![1, 2, 3]);
    assert_eq!(extend_path(&Vec::<u32>::new(), 9), vec![9]);
}

#[test]
fn stitch_paths_passes_the_meeting_node_once() {
    assert_eq!(stitch_paths(&vec![1, 2, 3], &vec![6, 5, 4, 3]), vec![1, 2, 3, 4, 5, 6]);
    assert_eq!(stitch_paths(&vec![1, 2, 3], &vec![3]), vec![1, 2, 3]);
    assert_eq!(stitch_paths(&vec![3], &vec![5, 4, 3]), vec![3, 4, 5]);
}

#[test]
fn relax_records_a_new_node() {
    let mut table = vec![at(1, 0, vec![1])];
    let offer = relax(&at(1, 0, vec![1]), 2, 7, &mut table).unwrap();
    assert_eq!(offer.node, 2);
    assert_eq!(offer.cost, 7);
    assert_eq!(offer.path, vec![1, 2]);
    assert_eq!(table.len(), 2);
    assert_eq!(table[1].node, 2);
    assert_eq!(table[1].cost, 7);
    assert_eq!(table[1].path, vec![1, 2]);
}

#[test]
fn relax_replaces_a_dearer_route() {
    let mut table = vec![at(1, 0, vec![1]), at(2, 9, vec![1, 2]), at(3, 1, vec![1, 3])];
    let offer = relax(&at(3, 1, vec![1, 3]), 2, 4, &mut table).unwrap();
    assert_eq!(offer.cost, 5);
    assert_eq!(offer.path, vec![1, 3, 2]);
    assert_eq!(table.len(), 3);
    assert_eq!(table[1].cost, 5);
    assert_eq!(table[1].path, vec![1, 3, 2]);
}

#[test]
fn relax_declines_a_route_that_is_no_cheaper() {
    let mut table = vec![at(1, 0, vec![1]), at(2, 5, vec![1, 2]), at(3, 1, vec![1, 3])];
    assert!(relax(&at(3, 1, vec![1, 3]), 2, 4, &mut table).is_none());
    assert!(relax(&at(3, 1, vec![1, 3]), 2, 8, &mut table).is_none());
    assert_eq!(table[1].cost, 5);
    assert_eq!(table[1].path, vec![1, 2]);
}

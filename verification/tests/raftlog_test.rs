use sledlite::raftlog::first_index_after;
use sledlite::raftlog::last_index_of;
use sledlite::raftlog::positions_between;
use sledlite::raftlog::term_of;

fn marks() -> Vec<(u64, u64)> {
    vec![(0, 0), (1, 1), (2, 1), (3, 2), (4, 2), (4, 3)]
}

#[test]
fn positions_between_takes_the_half_open_range() {
    assert_eq!(positions_between(&marks(), 1, 4), vec![1, 2, 3]);
    assert_eq!(positions_between(&marks(), 4, 5), vec![4, 5]);
    assert_eq!(positions_between(&marks(), 0, 1), vec![0]);
    assert_eq!(positions_between(&marks(), 2, 2), Vec::<usize>::new());
    assert_eq!(positions_between(&marks(), 5, 9), Vec::<usize>::new());
    assert_eq!(positions_between(&Vec::new(), 0, 9), Vec::<usize>::new());
}

#[test]
fn term_of_finds_the_first_entry_of_the_index() {
    assert_eq!(term_of(&marks(), 0), Some(0));
    assert_eq!(term_of(&marks(), 3), Some(2));
    assert_eq!(term_of(&marks(), 4), Some(2));
    assert_eq!(term_of(&marks(), 5), None);
}

#[test]
fn first_and_last_index() {
    assert_eq!(first_index_after(&marks()), Some(1));
    assert_eq!(first_index_after(&vec![(7, 1)]), Some(8));
    assert_eq!(first_index_after(&Vec::new()), None);
    assert_eq!(first_index_after(&vec![(u64::MAX, 1)]), None);
    assert_eq!(last_index_of(&marks()), 4);
    assert_eq!(last_index_of(&Vec::new()), 0);
}

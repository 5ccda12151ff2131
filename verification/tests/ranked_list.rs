use fastrbo::config::Config;
use fastrbo::error::RboError;
use fastrbo::ranked_list::{contains_dups, RankedList};

fn ids(names: &[&str]) -> Vec<String> {
    names.iter().map(|name| name.to_string()).collect()
}

#[test]
fn has_dup() {
    let testvec = [
        "hallo".to_string(),
        "test".to_string(),
        "hallo".to_string(),
        "daar".to_string(),
    ];

    let result = contains_dups(&testvec);
    assert!(result)
}

#[test]
#[should_panic]
fn create_non_uniq_ranked_list() {
    let testvec = vec![
        "hallo".to_string(),
        "test".to_string(),
        "hallo".to_string(),
        "daar".to_string(),
    ];
    let rlist = RankedList::new(testvec).unwrap();
    println!("{:?}", rlist.elements());
}

#[test]
fn no_dup_in_distinct_list() {
    assert!(!contains_dups(&ids(&["hallo", "test", "daar"])));
}

#[test]
fn no_dup_in_empty_list() {
    assert!(!contains_dups(&ids(&[])));
}

#[test]
fn dup_found_wherever_the_repeat_stands() {
    assert!(contains_dups(&ids(&["a", "a"])));
    assert!(contains_dups(&ids(&["a", "a", "b", "c"])));
    assert!(contains_dups(&ids(&["b", "c", "a", "a"])));
    assert!(contains_dups(&ids(&["a", "b", "c", "a"])));
    assert!(contains_dups(&ids(&["b", "a", "c", "a", "d"])));
}

#[test]
fn identifiers_are_compared_exactly() {
    assert!(!contains_dups(&ids(&["a", "A", " a", "a ", ""])));
    assert!(contains_dups(&ids(&["", "x", ""])));
}

#[test]
fn repeated_identifier_is_rejected() {
    let made = RankedList::new(ids(&["a", "b", "a"]));
    assert_eq!(made.unwrap_err(), RboError::DuplicateIdentifier);
}

#[test]
fn distinct_identifiers_are_kept_in_order() {
    let list = RankedList::new(ids(&["test", "hallo", "daar"])).unwrap();
    assert_eq!(list.len(), 3);
    assert!(!list.is_empty());
    assert_eq!(list.elements(), ids(&["test", "hallo", "daar"]).as_slice());
}

#[test]
fn empty_ranking_is_valid() {
    let list = RankedList::new(Vec::new()).unwrap();
    assert_eq!(list.len(), 0);
    assert!(list.is_empty());
    assert!(list.elements().is_empty());
}

#[test]
fn duplicate_error_message() {
    assert_eq!(
        RboError::DuplicateIdentifier.message(),
        "ranked list contains duplicate ids"
    );
    assert_ne!(
        RboError::InvalidParameter.message(),
        RboError::DuplicateIdentifier.message()
    );
}

#[test]
fn cap_of_zero_is_rejected() {
    assert_eq!(Config::new(Some(0)).unwrap_err(), RboError::InvalidParameter);
}

#[test]
fn cap_is_kept() {
    assert_eq!(Config::new(Some(1)).unwrap().search_depth(), Some(1));
    assert_eq!(Config::new(Some(5)).unwrap().search_depth(), Some(5));
    assert_eq!(
        Config::new(Some(usize::MAX)).unwrap().search_depth(),
        Some(usize::MAX)
    );
    assert_eq!(Config::new(None).unwrap().search_depth(), None);
}

#[test]
fn plain_depth_of_zero_means_no_cap() {
    assert_eq!(Config::from_depth(0).search_depth(), None);
    assert_eq!(Config::from_depth(1).search_depth(), Some(1));
    assert_eq!(Config::from_depth(7).search_depth(), Some(7));
}

use bpe_markov::weighted_list::WeightedVec;

#[test]
fn choice1() {
    let mut list: WeightedVec<usize> = WeightedVec::new();
    list.push(10, 0);
    list.push(10, 1);
    list.push(10, 2);

    assert_eq!(list.choose_at(0), Some(&0));
    assert_eq!(list.choose_at(9), Some(&0));
    assert_eq!(list.choose_at(10), Some(&1));
    assert_eq!(list.choose_at(19), Some(&1));
    assert_eq!(list.choose_at(20), Some(&2));
    assert_eq!(list.choose_at(29), Some(&2));
    assert_eq!(list.choose_at(30), None);
}

#[test]
fn every_index_below_the_total_selects_its_range() {
    let mut list: WeightedVec<&str> = WeightedVec::new();
    list.push(10, "a");
    list.push(10, "b");
    list.push(10, "c");
    assert_eq!(list.total_weight(), 30);
    for index in 0..30 {
        let expected = ["a", "b", "c"][index / 10];
        assert_eq!(list.choose_at(index), Some(&expected));
    }
    for index in 30..40 {
        assert_eq!(list.choose_at(index), None);
    }
    assert_eq!(list.choose_at(usize::MAX), None);
}

#[test]
fn empty_list_selects_nothing() {
    let list: WeightedVec<u8> = WeightedVec::new();
    assert_eq!(list.len(), 0);
    assert_eq!(list.total_weight(), 0);
    assert_eq!(list.choose_at(0), None);
}

#[test]
fn zero_weight_is_never_selected() {
    let mut list: WeightedVec<char> = WeightedVec::new();
    list.push(0, 'x');
    list.push(2, 'y');
    list.push(0, 'z');
    list.push(1, 'w');
    assert_eq!(list.len(), 4);
    assert_eq!(list.total_weight(), 3);
    assert_eq!(list.choose_at(0), Some(&'y'));
    assert_eq!(list.choose_at(1), Some(&'y'));
    assert_eq!(list.choose_at(2), Some(&'w'));
    assert_eq!(list.choose_at(3), None);
}

#[test]
fn unequal_weights() {
    let mut list: WeightedVec<u32> = WeightedVec::new();
    list.push(1, 7);
    list.push(5, 8);
    list.push(3, 9);
    assert_eq!(list.total_weight(), 9);
    assert_eq!(list.choose_at(0), Some(&7));
    assert_eq!(list.choose_at(1), Some(&8));
    assert_eq!(list.choose_at(5), Some(&8));
    assert_eq!(list.choose_at(6), Some(&9));
    assert_eq!(list.choose_at(8), Some(&9));
    assert_eq!(list.choose_at(9), None);
}

#[test]
fn copy_selects_the_same() {
    let mut list: WeightedVec<String> = WeightedVec::new();
    list.push(2, "a".to_string());
    list.push(0, "b".to_string());
    list.push(3, "c".to_string());
    let mut copy = list.clone();
    copy.push(1, "d".to_string());
    assert_eq!(list.len(), 3);
    assert_eq!(copy.len(), 4);
    for index in 0..5 {
        assert_eq!(list.choose_at(index), copy.choose_at(index));
    }
    assert_eq!(list.choose_at(5), None);
    assert_eq!(copy.choose_at(5), Some(&"d".to_string()));
}

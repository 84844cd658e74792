use refute::collections::{IdList, IdSet};
use refute::score::Score;
use refute::status::Status;
use refute::status::Status::{Sat, Unknown, Unsat};
use refute::util::BiMap;

fn set(ids: &[usize]) -> IdSet {
    IdSet::from_vec(&ids.to_vec())
}

#[test]
fn a_list_keeps_order_and_repetition() {
    let mut list = IdList::new();
    assert_eq!(list.len(), 0);
    list.push(5);
    list.push(3);
    list.push(5);
    assert_eq!(list.len(), 3);
    assert_eq!(list.get(0), Some(5));
    assert_eq!(list.get(1), Some(3));
    assert_eq!(list.get(2), Some(5));
    assert_eq!(list.get(3), None);
    assert_eq!(list.at(1), 3);
    assert_eq!(list.to_vec(), vec![5, 3, 5]);
    assert!(list.contains(3));
    assert!(!list.contains(4));
    let copy = list.clone();
    assert!(copy.same(&list));
    list.push(1);
    assert!(!copy.same(&list));
    assert_eq!(copy.to_vec(), vec![5, 3, 5]);
    assert_eq!(IdList::from_vec(&vec![9, 8]).to_vec(), vec![9, 8]);
}

#[test]
fn a_set_is_sorted_and_holds_nothing_twice() {
    let s = set(&[7, 2, 7, 5, 2]);
    assert_eq!(s.to_vec(), vec![2, 5, 7]);
    assert_eq!(s.len(), 3);
    assert!(!s.is_empty());
    assert!(IdSet::empty().is_empty());
    assert_eq!(IdSet::singleton(4).to_vec(), vec![4]);
    assert!(s.contains(5));
    assert!(!s.contains(6));
    assert_eq!(s.at(0), 2);
    assert!(s.same(&set(&[5, 7, 2])));
    assert!(!s.same(&set(&[5, 7])));
}

#[test]
fn members_are_added_and_taken_out() {
    let s = set(&[2, 5, 7]);
    assert_eq!(s.with(6).to_vec(), vec![2, 5, 6, 7]);
    assert_eq!(s.with(1).to_vec(), vec![1, 2, 5, 7]);
    assert_eq!(s.with(9).to_vec(), vec![2, 5, 7, 9]);
    assert_eq!(s.with(5).to_vec(), vec![2, 5, 7]);
    assert_eq!(s.without(5).to_vec(), vec![2, 7]);
    assert_eq!(s.without(6).to_vec(), vec![2, 5, 7]);
    assert_eq!(IdSet::empty().with(3).to_vec(), vec![3]);
    assert_eq!(IdSet::singleton(3).without(3).to_vec(), Vec::<usize>::new());
}

#[test]
fn sets_are_joined_and_parted() {
    let a = set(&[1, 3, 5]);
    let b = set(&[3, 4]);
    let c = set(&[2, 6]);
    assert_eq!(a.union(&b).to_vec(), vec![1, 3, 4, 5]);
    assert_eq!(a.union(&IdSet::empty()).to_vec(), vec![1, 3, 5]);
    assert_eq!(a.difference(&b).to_vec(), vec![1, 5]);
    assert_eq!(b.difference(&a).to_vec(), vec![4]);
    assert_eq!(a.difference(&a).to_vec(), Vec::<usize>::new());
    assert!(a.overlaps(&b));
    assert!(!a.overlaps(&c));
    assert!(!a.overlaps(&IdSet::empty()));
}

#[test]
fn neighbours_are_paired() {
    assert_eq!(set(&[1, 3, 5]).pairs(), vec![(1, 3), (3, 5)]);
    assert_eq!(set(&[1, 3]).pairs(), vec![(1, 3)]);
    assert_eq!(set(&[1]).pairs(), vec![]);
    assert_eq!(IdSet::empty().pairs(), vec![]);
}

#[test]
fn overlapping_classes_are_merged() {
    let classes = vec![set(&[1, 2]), set(&[3, 4]), set(&[2, 5]), set(&[6])];
    let merged: Vec<Vec<usize>> =
        IdSet::combine_overlapping(&classes).iter().map(|class| class.to_vec()).collect();
    assert_eq!(merged, vec![vec![1, 2, 5], vec![3, 4], vec![6]]);
    let none: Vec<IdSet> = vec![];
    assert_eq!(IdSet::combine_overlapping(&none).len(), 0);
}

#[test]
fn classes_are_merged_until_no_two_share_a_member() {
    let classes = vec![set(&[1, 2]), set(&[3, 4]), set(&[2, 3])];
    let merged: Vec<Vec<usize>> =
        IdSet::combine_overlapping(&classes).iter().map(|class| class.to_vec()).collect();
    assert_eq!(merged, vec![vec![1, 2, 3, 4]]);
    let chain = vec![set(&[7, 8]), set(&[5, 6]), set(&[3, 4]), set(&[1, 2]), set(&[2, 3]), set(&[4, 5]), set(&[6, 7])];
    let merged: Vec<Vec<usize>> =
        IdSet::combine_overlapping(&chain).iter().map(|class| class.to_vec()).collect();
    assert_eq!(merged, vec![vec![1, 2, 3, 4, 5, 6, 7, 8]]);
}

#[test]
fn a_map_is_read_both_ways() {
    let mut map: BiMap<u32, u64> = BiMap::new();
    assert_eq!(map.len(), 0);
    map.insert(&1, &10);
    map.insert(&2, &20);
    assert_eq!(map.len(), 2);
    assert_eq!(map.forward(&1), Some(&10));
    assert_eq!(map.forward(&3), None);
    assert_eq!(map.back(&20), Some(&2));
    assert_eq!(map.back(&30), None);
}

#[test]
fn verdicts_add_and_multiply() {
    assert_eq!(Status::default(), Unknown);
    for x in [Sat, Unsat, Unknown] {
        assert_eq!(Sat + x, x);
        assert_eq!(x + Sat, x);
        assert_eq!(Unsat * x, x);
        assert_eq!(x * Unsat, x);
        assert_eq!(Unsat + x, Unsat);
        assert_eq!(Sat * x, Sat);
        for y in [Sat, Unsat, Unknown] {
            assert_eq!(x + y, y + x);
            assert_eq!(x * y, y * x);
            for z in [Sat, Unsat, Unknown] {
                assert_eq!((x + y) + z, x + (y + z));
                assert_eq!((x * y) * z, x * (y * z));
            }
        }
    }
    assert_eq!(Unknown + Unknown, Unknown);
    assert_eq!(Unknown * Unknown, Unknown);
    assert_eq!(Status::sum(&vec![]), Sat);
    assert_eq!(Status::product(&vec![]), Unsat);
    assert_eq!(Status::sum(&vec![Sat, Unknown, Sat]), Unknown);
    assert_eq!(Status::sum(&vec![Sat, Unknown, Unsat]), Unsat);
    assert_eq!(Status::product(&vec![Unsat, Unknown]), Unknown);
    assert_eq!(Status::product(&vec![Unsat, Unknown, Sat]), Sat);
    assert!(Sat.is_known());
    assert!(Unsat.is_known());
    assert!(!Unknown.is_known());
}

#[test]
fn scores_are_ordered_as_the_numbers_they_stand_for() {
    assert_eq!(Score::default(), Score(0));
    assert_eq!(Score::zero().bits(), 0.0_f32.to_bits());
    assert_eq!(Score::half().bits(), 0.5_f32.to_bits());
    assert_eq!(Score::one().bits(), 1.0_f32.to_bits());
    assert!(Score::zero().less(Score::half()));
    assert!(Score::half().less(Score::one()));
    assert!(!Score::one().less(Score::one()));
    assert_eq!(Score::new(2.5_f32.to_bits()), Some(Score(2.5_f32.to_bits())));
    assert_eq!(Score::new(f32::INFINITY.to_bits()), None);
    assert_eq!(Score::new(f32::NAN.to_bits()), None);
    assert_eq!(Score::new((-1.0_f32).to_bits()), None);
}

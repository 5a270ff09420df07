use radicle_surf::history::History;

fn history(items: &[u32]) -> History<u32> {
    History::from_vec(items.to_vec()).unwrap()
}

#[test]
fn new_push_first_iter() {
    let mut h = History::new(3u32);
    h.push(2);
    h.push(1);
    assert_eq!(*h.first(), 3);
    assert_eq!(h.iter(), &[3, 2, 1][..]);
    assert!(History::<u32>::from_vec(vec![]).is_none());
}

#[test]
fn find_suffix_drops_what_comes_before() {
    let h = history(&[5, 4, 3, 2, 1]);
    let s = h.find_suffix(&3).unwrap();
    assert_eq!(s.iter(), &[3, 2, 1][..]);
    assert_eq!(h.find_suffix(&5).unwrap().iter(), h.iter());
    assert!(h.find_suffix(&9).is_none());
}

#[test]
fn map_keeps_order_and_length() {
    let h = history(&[1, 2, 3]);
    let m = h.map(|x: &u32| *x as u64 * 10);
    assert_eq!(m.iter(), &[10u64, 20, 30][..]);
}

#[test]
fn find_gives_first_some() {
    let h = history(&[1, 2, 3, 4]);
    assert_eq!(h.find(|x: &u32| if *x % 2 == 0 { Some(*x * 100) } else { None }), Some(200));
    assert_eq!(h.find(|x: &u32| if *x > 10 { Some(*x) } else { None }), None);
}

#[test]
fn find_in_history_by_identifier() {
    let h = History::from_vec(vec![(1u32, 'a'), (2, 'b'), (3, 'b')]).unwrap();
    assert_eq!(h.find_in_history(&'b', |x: &(u32, char)| x.1), Some((2, 'b')));
    assert_eq!(h.find_in_history(&'z', |x: &(u32, char)| x.1), None);
}

#[test]
fn find_in_histories_keeps_those_holding_it() {
    let hs = vec![history(&[1, 2]), history(&[3, 4]), history(&[4, 5]), history(&[6])];
    let found = History::find_in_histories(hs, &4, |x: &u32| *x);
    assert_eq!(found.len(), 2);
    assert_eq!(found[0].iter(), &[3, 4][..]);
    assert_eq!(found[1].iter(), &[4, 5][..]);
}

#[test]
fn clone_is_equal() {
    let h = history(&[7, 8]);
    assert_eq!(h.clone().iter(), h.iter());
}

#[test]
fn equality_is_by_sequence() {
    assert_eq!(history(&[1, 2]), history(&[1, 2]));
    assert_ne!(history(&[1, 2]), history(&[2, 1]));
}

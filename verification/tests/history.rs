use psi_ask::history::History;

fn all(h: &History<u32>) -> Vec<u32> {
    (0..h.len()).map(|i| *h.get(i)).collect()
}

#[test]
fn oldest_samples_leave() {
    let mut h: History<u32> = History::new(3);
    assert_eq!(h.len(), 0);
    h.push(1);
    h.push(2);
    assert_eq!(all(&h), vec![1, 2]);
    h.push(3);
    assert_eq!(all(&h), vec![1, 2, 3]);
    h.push(4);
    h.push(5);
    assert_eq!(all(&h), vec![3, 4, 5]);
}

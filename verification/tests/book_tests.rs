use my_sigs::book_things::ArrBook;
use my_sigs::book_things::BookBuilder;
use my_sigs::book_things::MapBook;
use my_sigs::book_things::Offer;

#[test]
fn test_ordering() {
    let mut mb = MapBook::new();
    [1, 4, 5, 3 as usize].into_iter().for_each(|v| {
        mb.add_offer(Offer { index: v });
    });
    let values = mb
        .offers
        .into_iter()
        .map(|offer| offer.index)
        .collect::<Vec<_>>();
    assert_eq!(&[1, 3, 4, 5], &values[..]);
}

#[test]
fn map_book_ignores_duplicates() {
    let mut mb = MapBook::new();
    mb.add_offer(Offer { index: 2 });
    mb.add_offer(Offer { index: 2 });
    mb.add_offer(Offer { index: 1 });
    let values = mb.to_vec().into_iter().map(|o| o.index).collect::<Vec<_>>();
    assert_eq!(&[1, 2], &values[..]);
}

#[test]
fn map_book_removes_by_index() {
    let mut mb = MapBook::new();
    for v in [3usize, 1, 2] {
        mb.add_offer(Offer { index: v });
    }
    mb.remove_offer(Offer { index: 2 });
    mb.remove_offer(Offer { index: 9 });
    let values = mb.to_vec().into_iter().map(|o| o.index).collect::<Vec<_>>();
    assert_eq!(&[1, 3], &values[..]);
}

#[test]
fn arr_book_starts_prefilled() {
    let b = ArrBook::new();
    let v = b.to_vec();
    assert_eq!(v.len(), 16000);
    assert!(v.iter().all(|o| o.index == 0));
}

#[test]
fn arr_book_inserts_at_own_index() {
    let mut b = ArrBook::new();
    b.add_offer(Offer { index: 3 });
    let v = b.to_vec();
    assert_eq!(v.len(), 16001);
    assert_eq!(v[3].index, 3);
}

#[test]
fn arr_book_removes_at_index() {
    let mut b = ArrBook::new();
    b.add_offer(Offer { index: 5 });
    b.remove_offer(Offer { index: 5 });
    assert_eq!(b.to_vec().len(), 16000);
}

use keyed_tree::list::DoubleLinkedList;
use keyed_tree::list::List;

#[test]
pub fn list_test_01() {
    let mut list = List::default();
    assert_eq!(list.len(), 0);
    list.push_front(3);
    list.push_back(4);
    list.push_front(9);
    assert_eq!(list.len(), 3);
}

#[test]
pub fn list_test_02() {
    let mut list: List<i32> = List::default();
    let p = list.pop_front();
    assert_eq!(p.is_none(), true);
    assert_eq!(list.len(), 0);
    list.push_front(3);
    list.push_back(4);
    list.push_front(9);
    println!("{:?}", list);
    let p = list.pop_front();
    println!("{:?}", p);
    assert_eq!(p, Some(9));
    println!("{:?}", list);
    let p = list.pop_front();
    println!("{:?}", p);
    println!("{:?}", list);
    assert_eq!(p, Some(3));
    let p = list.pop_front();
    println!("{:?}", p);
    println!("{:?}", list);
    assert_eq!(p, Some(4));
    let p = list.pop_front();
    println!("{:?}", p);
    assert_eq!(p, None);
}

#[test]
pub fn list_test_03() {
    let mut dl = DoubleLinkedList::<i32>::default();
    dl.append(1);
    dl.append(2);
    dl.append(3);
    println!("{:?}", dl.length);
    let o = dl.pop();
    println!("{:?}", o);
    let o = dl.pop();
    println!("{:?}", o);
    let o = dl.pop();
    println!("{:?}", o);
    let o = dl.pop();
    println!("{:?}", o);
    assert!(o.is_none())
}

#[test]
pub fn list_test_04() {
    let mut dl = DoubleLinkedList::<i32>::default();
    dl.append(1);
    dl.append(2);
    dl.append(3);
    println!("{:?}", dl.length);

    let mut it = dl.iter();
    while let Some(o) = it.next() {
        println!("{}", o)
    }

    assert_eq!(dl.length, 3)
}

#[test]
fn list_double_pop_values() {
    let mut dl = DoubleLinkedList::<i32>::default();
    dl.append(10);
    dl.append(20);
    dl.append(30);
    assert_eq!(dl.pop(), Some(10));
    assert_eq!(dl.pop(), Some(20));
    dl.append(40);
    assert_eq!(dl.pop(), Some(30));
    assert_eq!(dl.pop(), Some(40));
    assert_eq!(dl.pop(), None);
    assert_eq!(dl.length, 0);
}

#[test]
fn list_iter_yields_in_order() {
    let mut dl = DoubleLinkedList::<i32>::default();
    dl.append(7);
    dl.append(8);
    dl.append(9);
    let mut it = dl.iter();
    assert_eq!(it.next(), Some(7));
    assert_eq!(it.next(), Some(8));
    assert_eq!(it.next(), Some(9));
    assert_eq!(it.next(), None);
}

#[test]
fn list_single_is_empty() {
    let mut list: List<u8> = List::new();
    assert!(list.is_empty());
    list.push_back(1);
    assert!(!list.is_empty());
    assert_eq!(list.pop_front(), Some(1));
    assert!(list.is_empty());
}

use fastmem::list::List;

#[test]
fn test_list() {
    let l: List<Vec<i32>> = List::null();
    println!("l {:?}", l);

    let l = l.push(vec![1]);
    println!("l {:?}", l);

    let l = l.push(vec![2]);
    println!("l {:?}", l);

    let (l, d) = l.pop();
    println!("l {:?}, d {:?}", l, d);

    let (l, d) = l.pop();
    println!("l {:?}, d {:?}", l, d);
}

#[test]
fn test() {
    let i: i32 = 1;
    let t = move |j: i32| j + i;

    println!("t {}", std::mem::size_of_val(&t));
}

#[test]
fn test_list_pop_order() {
    let l: List<Vec<i32>> = List::null();
    let l = l.push(vec![1]);
    let l = l.push(vec![2]);
    let (l, d) = l.pop();
    assert_eq!(d, vec![2]);
    let (_l, d) = l.pop();
    assert_eq!(d, vec![1]);
}

#[test]
fn test_list_roundtrip() {
    let l: List<i32> = List::null();
    let l = l.push(1).push(2).push(3);
    let v = l.to_raw();
    assert_eq!(v, vec![3, 2, 1]);
    let l2 = List::to_list(v);
    let (l2, d) = l2.pop();
    assert_eq!(d, 3);
    let v2 = l2.to_raw();
    assert_eq!(v2, vec![2, 1]);
}

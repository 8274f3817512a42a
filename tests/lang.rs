use std::cell::Cell;
use std::collections::LinkedList;

fn func_s(r_s: &'static i32) {
    println!("{}", r_s);
}

fn func_l(r_l: &i32) {
    println!("{}", r_l);
}

#[test]
#[allow(unused_assignments, unused_mut, unused_variables)]
fn variant_test() {
    {
        let r_static: &'static i32 = &1;
        let num = 1;
        let r_local = &num;
        let vec_s: Vec<&'static i32> = vec![r_static];
        let mut vec_l = vec![r_local];
        vec_l = vec_s;
    }
    {
        let r_static: &'static i32 = &1;
        let num = 1;
        let r_local = &num;
        let cell_s: Cell<&'static i32> = Cell::new(r_static);
        let mut cell_l = Cell::new(r_local);
    }
    {
        let r_static: &'static i32 = &1;
        let num = 1;
        let mut fn_s: fn(&'static i32) = func_s;
        let mut fn_l: fn(&i32) = func_l;
        fn_s = fn_l;
        fn_s(&100);
    }
}

#[test]
fn linkedlist_test() {
    let mut list = LinkedList::new();
    list.push_front(20);
    list.push_back(30);
    list.push_back(35);
    let r1 = list.front_mut().unwrap();
    *r1 = 3;
    assert_eq!(list.into_iter().collect::<Vec<i32>>(), vec![3, 30, 35]);
}

use buddy_allocator::FreeList;

#[test]
fn test_head_list() {
    let node_1: usize = 0x1000;
    let node_2: usize = 0x2000;
    let mut main_node = FreeList::new();
    assert!(main_node.is_tail());
    assert_eq!(main_node.addresses(), Vec::<usize>::new());

    /* `main_node` -> `node_2` */
    main_node.push(node_2);
    assert!(!main_node.is_tail());
    assert_eq!(main_node.addresses(), vec![node_2]);

    /* `main_node` -> `node_1` -> `node_2` */
    main_node.push(node_1);
    assert_eq!(main_node.addresses(), vec![node_1, node_2]);

    /* `main_node` -> `node_2` */
    let popped = main_node.pop_next();
    assert!(popped.is_some_and(|ptr| ptr == node_1));
    assert_eq!(main_node.addresses(), vec![node_2]);

    /* `main_node` */
    let popped = main_node.pop_next();
    assert!(popped.is_some_and(|ptr| ptr == node_2));
    assert!(main_node.is_tail());
    assert_eq!(main_node.addresses(), Vec::<usize>::new());

    let popped = main_node.pop_next();
    assert!(popped.is_none());

    /* `main_node` -> `node_1` -> `node_2` */
    main_node.push(node_2);
    main_node.push(node_1);
    assert_eq!(main_node.addresses(), vec![node_1, node_2]);

    /* `main_node` -> `node_2` */
    let at = main_node.find(node_1).expect("node_1 is in the list");
    let popped = main_node.pop(at);
    assert_eq!(popped, node_1);
    assert_eq!(main_node.addresses(), vec![node_2]);

    /* `main_node` */
    let at = main_node.find(node_2).expect("node_2 is in the list");
    let popped = main_node.pop(at);
    assert_eq!(popped, node_2);
    assert!(main_node.is_tail());
    assert!(main_node.find(node_1).is_none());
    assert!(main_node.find(node_2).is_none());
}

#[test]
fn test_iter() {
    let node_1: usize = 0x1000;
    let node_2: usize = 0x2000;
    let mut main_node = FreeList::new();

    /* `main_node` -> `node_1` -> `node_2` */
    main_node.push(node_2);
    main_node.push(node_1);
    assert_eq!(main_node.len(), 2);

    let mut iterator = main_node.addresses().into_iter();
    assert!(iterator.next().is_some_and(|ptr| ptr == node_1));
    assert!(iterator.next().is_some_and(|ptr| ptr == node_2));
    assert!(iterator.next().is_none());

    for node in main_node.addresses() {
        let at = main_node.find(node).expect("listed node is found");
        main_node.pop(at);
    }

    /* `main_node` */
    assert!(main_node.is_tail());
    assert_eq!(main_node.len(), 0);
}

#[test]
fn pop_removes_from_the_middle_and_keeps_the_rest_in_order() {
    let mut list = FreeList::new();
    list.push(0x30);
    list.push(0x20);
    list.push(0x10);
    assert_eq!(list.addresses(), vec![0x10, 0x20, 0x30]);
    let at = list.find(0x20).unwrap();
    assert_eq!(list.get(at), 0x20);
    assert_eq!(list.pop(at), 0x20);
    assert_eq!(list.addresses(), vec![0x10, 0x30]);
    assert_eq!(list.pop_next(), Some(0x10));
    assert_eq!(list.pop_next(), Some(0x30));
    assert_eq!(list.pop_next(), None);
}

use lykoi_data::dag::Dag;

#[test]
fn dag_test_build_0() {
    let mut dag = Dag::new();

    let a = dag.point(10);
    let b = dag.point(20);
    let c = dag.point(30);
    let d = dag.point(40);

    dag.depend(&b, &a);
    dag.depend(&c, &a);
    dag.depend(&d, &c);
    dag.depend(&d, &b);

    let order = dag.build();

    assert_eq!(&order.unwrap(), &[10, 30, 20, 40]);
}

#[test]
fn test_build_1() {
    let mut dag = Dag::new();

    let a = dag.point(10);
    let b = dag.point(20);
    let c = dag.point(30);

    dag.depend(&a, &c);
    dag.depend(&b, &a);
    dag.depend(&a, &b);

    let order = dag.build();

    assert!(&order.is_err());
}

#[test]
fn dag_chain_in_order() {
    let mut dag = Dag::new();
    let a = dag.point("a");
    let b = dag.point("b");
    let c = dag.point("c");

    dag.depend(&a, &b);
    dag.depend(&b, &c);

    let order = dag.build().unwrap();
    assert_eq!(order, vec!["c", "b", "a"]);
}

#[test]
fn dag_no_edges_reverse_insertion() {
    let mut dag = Dag::new();
    let _a = dag.point(1);
    let _b = dag.point(2);
    let _c = dag.point(3);
    // With no dependencies, one round emits everything, highest index first.
    assert_eq!(dag.build().unwrap(), vec![3, 2, 1]);
}

#[test]
fn dag_empty() {
    let dag: Dag<u32> = Dag::new();
    assert_eq!(dag.build().unwrap(), Vec::<u32>::new());
}

#[test]
fn dag_self_cycle() {
    let mut dag = Dag::new();
    let a = dag.point(7);
    dag.depend(&a, &a);
    assert!(dag.build().is_err());
}

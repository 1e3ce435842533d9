use pw_viz::order::depth_first_order;

fn position(order: &[usize], v: usize) -> usize {
    order.iter().position(|x| *x == v).unwrap()
}

#[test]
fn order_of_no_vertices_is_empty() {
    assert_eq!(depth_first_order(&vec![]), Vec::<usize>::new());
}

#[test]
fn order_of_a_chain_follows_the_chain() {
    assert_eq!(depth_first_order(&vec![vec![1], vec![2], vec![]]), vec![0, 1, 2]);
}

#[test]
fn order_puts_a_later_source_first() {
    assert_eq!(depth_first_order(&vec![vec![], vec![0]]), vec![1, 0]);
    assert_eq!(depth_first_order(&vec![vec![], vec![0], vec![1]]), vec![2, 1, 0]);
}

#[test]
fn order_of_a_diamond() {
    let succ = vec![vec![1, 2], vec![3], vec![3], vec![]];
    assert_eq!(depth_first_order(&succ), vec![0, 2, 1, 3]);
}

#[test]
fn order_of_unlinked_vertices_is_last_first() {
    assert_eq!(depth_first_order(&vec![vec![], vec![], vec![]]), vec![2, 1, 0]);
}

#[test]
fn order_of_a_cycle_is_still_total() {
    assert_eq!(depth_first_order(&vec![vec![1], vec![0]]), vec![0, 1]);
    assert_eq!(depth_first_order(&vec![vec![1], vec![2], vec![0]]), vec![0, 1, 2]);
}

#[test]
fn order_ends_on_a_loop_at_one_vertex() {
    assert_eq!(depth_first_order(&vec![vec![0]]), vec![0]);
    assert_eq!(depth_first_order(&vec![vec![0, 1, 0], vec![1]]), vec![0, 1]);
}

#[test]
fn order_takes_an_edge_listed_twice() {
    assert_eq!(depth_first_order(&vec![vec![1, 1], vec![]]), vec![0, 1]);
}

#[test]
fn order_of_an_acyclic_graph_has_every_edge_forward() {
    let succ = vec![
        vec![],
        vec![0, 4],
        vec![1, 3],
        vec![0],
        vec![0],
        vec![2, 6],
        vec![3],
        vec![],
    ];
    let order = depth_first_order(&succ);
    let mut sorted = order.clone();
    sorted.sort();
    assert_eq!(sorted, vec![0, 1, 2, 3, 4, 5, 6, 7]);
    for (u, targets) in succ.iter().enumerate() {
        for v in targets {
            assert!(position(&order, u) < position(&order, *v));
        }
    }
}

#[test]
fn order_of_a_long_chain_needs_no_deep_recursion() {
    let n = 200_000;
    let mut succ: Vec<Vec<usize>> = Vec::new();
    for u in 0..n {
        if u + 1 < n {
            succ.push(vec![u + 1]);
        } else {
            succ.push(vec![]);
        }
    }
    let order = depth_first_order(&succ);
    assert_eq!(order.len(), n);
    assert_eq!(order[0], 0);
    assert_eq!(order[n - 1], n - 1);
}

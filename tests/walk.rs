use dtb_probe::tree::{dispatch, match_compatible, walk, DeviceNode, Driver};

fn node(name: &str, compatible: Option<&str>, children: Vec<DeviceNode>) -> DeviceNode {
    DeviceNode {
        name: name.to_string(),
        compatible: compatible.map(|c| c.to_string()),
        children,
    }
}

fn sample_tree() -> DeviceNode {
    node(
        "",
        Some("riscv-virtio"),
        vec![
            node("chosen", None, vec![]),
            node(
                "soc",
                Some("simple-bus"),
                vec![
                    node("uart@10000000", Some("ns16550a"), vec![]),
                    node("virtio_mmio@10001000", Some("virtio,mmio"), vec![]),
                    node("virtio_mmio@10002000", Some("virtio,mmio"), vec![]),
                ],
            ),
            node("memory@80000000", None, vec![]),
        ],
    )
}

#[test]
fn walk_visits_each_node_once_in_preorder() {
    let visits = walk(&sample_tree());
    let names: Vec<&str> = visits.iter().map(|v| v.name.as_str()).collect();
    assert_eq!(
        names,
        vec![
            "",
            "chosen",
            "soc",
            "uart@10000000",
            "virtio_mmio@10001000",
            "virtio_mmio@10002000",
            "memory@80000000",
        ]
    );
    let paths: Vec<Vec<usize>> = visits.iter().map(|v| v.path.clone()).collect();
    assert_eq!(
        paths,
        vec![vec![], vec![0], vec![1], vec![1, 0], vec![1, 1], vec![1, 2], vec![2]]
    );
}

#[test]
fn walk_count_equals_node_count() {
    // A chain of 50 nodes, each with one extra leaf: 99 nodes in all.
    let mut t = node("leaf", None, vec![]);
    for i in 0..49 {
        t = node(&format!("n{}", i), None, vec![t, node("x", None, vec![])]);
    }
    assert_eq!(walk(&t).len(), 99);
}

#[test]
fn walk_dispatches_recognised_nodes() {
    let visits = walk(&sample_tree());
    let drivers: Vec<Option<Driver>> = visits.iter().map(|v| v.driver).collect();
    assert_eq!(
        drivers,
        vec![
            None,
            None,
            None,
            Some(Driver::Ns16550a),
            Some(Driver::VirtioMmio),
            Some(Driver::VirtioMmio),
            None,
        ]
    );
    let uart = drivers.iter().filter(|d| **d == Some(Driver::Ns16550a)).count();
    let virtio = drivers.iter().filter(|d| **d == Some(Driver::VirtioMmio)).count();
    assert_eq!((uart, virtio), (1, 2));
}

#[test]
fn recognised_bus_node_children_still_walked() {
    let t = node(
        "virtio_mmio@1",
        Some("virtio,mmio"),
        vec![node("uart@2", Some("ns16550a"), vec![])],
    );
    let visits = walk(&t);
    assert_eq!(visits.len(), 2);
    assert_eq!(visits[0].driver, Some(Driver::VirtioMmio));
    assert_eq!(visits[1].driver, Some(Driver::Ns16550a));
    assert_eq!(visits[1].path, vec![0]);
}

#[test]
fn unmatched_leaf_gives_one_visit_and_no_probe() {
    let visits = walk(&node("cpu@0", Some("riscv"), vec![]));
    assert_eq!(visits.len(), 1);
    assert_eq!(visits[0].name, "cpu@0");
    assert_eq!(visits[0].driver, None);
    assert!(visits[0].path.is_empty());
}

#[test]
fn compatible_table_matches_exactly() {
    assert_eq!(match_compatible("ns16550a"), Some(Driver::Ns16550a));
    assert_eq!(match_compatible("virtio,mmio"), Some(Driver::VirtioMmio));
    assert_eq!(match_compatible("ns16550"), None);
    assert_eq!(match_compatible("ns16550a "), None);
    assert_eq!(match_compatible("NS16550A"), None);
    assert_eq!(match_compatible("virtio,mmio,extra"), None);
    assert_eq!(match_compatible("virtio"), None);
    assert_eq!(match_compatible(""), None);
}

#[test]
fn missing_compatible_gives_no_driver() {
    assert_eq!(dispatch(&node("memory", None, vec![])), None);
    assert_eq!(dispatch(&node("serial", Some("ns16550a"), vec![])), Some(Driver::Ns16550a));
    assert_eq!(dispatch(&node("blk", Some("virtio,mmio"), vec![])), Some(Driver::VirtioMmio));
    assert_eq!(dispatch(&node("bus", Some("simple-bus"), vec![])), None);
}

use font_toolkit::branch_factor::BranchFactor;
use font_toolkit::int_set::IntSet;
use font_toolkit::layer_builder::{create_layer, CreateLayerState};
use font_toolkit::layers::{Node, NodeType};

fn node(bits: u32, parent_index: u32, node_type: NodeType) -> Node {
    Node {
        bits,
        parent_index,
        node_type,
    }
}

fn plain(nodes: &[Node]) -> Vec<(u32, u32, NodeType)> {
    nodes
        .iter()
        .map(|n| (n.bits, n.parent_index, n.node_type))
        .collect()
}

fn members(set: &IntSet) -> Vec<u32> {
    let mut out = Vec::new();
    let mut cursor = set.first_cursor();
    while let Some(at) = cursor {
        out.push(at.value());
        cursor = set.cursor_after(at);
    }
    out
}

#[test]
fn one_value_makes_one_record() {
    let mut nodes = Vec::new();
    let (upper, upper_filled) = create_layer(
        BranchFactor::Eight,
        IntSet::from_values(&[0]),
        IntSet::empty(),
        &mut nodes,
        0,
    );
    assert_eq!(members(&upper), vec![0]);
    assert!(upper_filled.is_empty());
    assert_eq!(plain(&nodes), vec![(1, 0, NodeType::Standard)]);
}

#[test]
fn records_come_by_falling_number() {
    let mut nodes = Vec::new();
    let values = IntSet::from_values(&[1, 2, 9, 40, 41, 47]);
    let (upper, upper_filled) = create_layer(
        BranchFactor::Eight,
        values,
        IntSet::from_values(&[1, 9]),
        &mut nodes,
        0,
    );
    assert_eq!(members(&upper), vec![0, 1, 5]);
    assert!(upper_filled.is_empty());
    assert_eq!(
        plain(&nodes),
        vec![
            (0b1000_0011, 5, NodeType::Standard),
            (0b0000_0010, 1, NodeType::Standard),
            (0b0000_0110, 0, NodeType::Standard),
        ]
    );
}

#[test]
fn a_node_is_filled_if_all_its_values_are() {
    // The values 4 to 7 are the children of node 1 with four children per
    // node; 8 to 11 are those of node 2, but 9 is not filled.
    let mut values = IntSet::empty();
    values.insert_range(4, 11);
    let mut filled = IntSet::empty();
    filled.insert_range(0, 8);
    filled.insert_range(10, 20);
    // Three records were there. The last two are the records of the level
    // below: the first of them lies below node 1, the second below node 2.
    let mut nodes = vec![
        node(7, 4, NodeType::Standard),
        node(1, 5, NodeType::Filled),
        node(2, 8, NodeType::Standard),
    ];
    let (upper, upper_filled) = create_layer(BranchFactor::Four, values, filled, &mut nodes, 2);
    assert_eq!(members(&upper), vec![1, 2]);
    assert_eq!(members(&upper_filled), vec![1]);
    assert_eq!(
        plain(&nodes),
        vec![
            (7, 4, NodeType::Standard),
            (1, 5, NodeType::Skip),
            (2, 8, NodeType::Standard),
            (0b1111, 2, NodeType::Standard),
            (0b1111, 1, NodeType::Filled),
        ]
    );
}

#[test]
fn no_values_make_no_record() {
    let mut nodes = vec![node(3, 9, NodeType::Standard)];
    let (upper, upper_filled) = create_layer(
        BranchFactor::Two,
        IntSet::empty(),
        IntSet::all(),
        &mut nodes,
        5,
    );
    assert!(upper.is_empty());
    assert!(upper_filled.is_empty());
    assert_eq!(plain(&nodes), vec![(3, 9, NodeType::Standard)]);
}

#[test]
fn the_greatest_values_have_their_node() {
    let mut nodes = Vec::new();
    let (upper, _) = create_layer(
        BranchFactor::ThirtyTwo,
        IntSet::from_values(&[u32::MAX, u32::MAX - 31, 0]),
        IntSet::empty(),
        &mut nodes,
        0,
    );
    assert_eq!(members(&upper), vec![0, u32::MAX / 32]);
    assert_eq!(
        plain(&nodes),
        vec![
            (0x8000_0001, u32::MAX / 32, NodeType::Standard),
            (1, 0, NodeType::Standard),
        ]
    );
}

fn state(
    current: Option<Node>,
    filled_bits: u32,
    child_count: usize,
    init: usize,
) -> CreateLayerState {
    CreateLayerState {
        upper_indices: IntSet::empty(),
        upper_filled_indices: IntSet::empty(),
        current_node: current,
        current_node_filled_bits: filled_bits,
        child_count,
        nodes_init_length: init,
        branch_factor: BranchFactor::Four,
    }
}

#[test]
fn commit_without_a_node_changes_nothing() {
    let mut st = state(None, 5, 1, 1);
    let mut nodes = vec![node(1, 12, NodeType::Standard)];
    st.commit_current_node(&mut nodes);
    assert_eq!(plain(&nodes), vec![(1, 12, NodeType::Standard)]);
    assert!(st.upper_indices.is_empty());
    assert_eq!(st.current_node_filled_bits, 5);
}

#[test]
fn commit_of_a_filled_node_skips_its_children() {
    let current = node(0b1111, 3, NodeType::Standard);
    let mut st = state(Some(current), 0b1111, 2, 3);
    let mut nodes = vec![
        node(1, 13, NodeType::Standard),
        node(1, 12, NodeType::Standard),
        node(1, 16, NodeType::Filled),
    ];
    st.commit_current_node(&mut nodes);
    // The first record is none of the last two; the last lies below node 4.
    assert_eq!(
        plain(&nodes),
        vec![
            (1, 13, NodeType::Standard),
            (1, 12, NodeType::Skip),
            (1, 16, NodeType::Filled),
            (0b1111, 3, NodeType::Filled),
        ]
    );
    assert_eq!(members(&st.upper_indices), vec![3]);
    assert_eq!(members(&st.upper_filled_indices), vec![3]);
    assert!(st.current_node.is_none());
    assert_eq!(st.current_node_filled_bits, 0);
}

#[test]
fn commit_of_a_node_that_is_not_filled() {
    let current = node(0b0101, 7, NodeType::Standard);
    let mut st = state(Some(current), 0b0101, 1, 9);
    let mut nodes = vec![node(1, 28, NodeType::Standard)];
    st.commit_current_node(&mut nodes);
    assert_eq!(
        plain(&nodes),
        vec![(1, 28, NodeType::Standard), (0b0101, 7, NodeType::Standard)]
    );
    assert_eq!(members(&st.upper_indices), vec![7]);
    assert!(st.upper_filled_indices.is_empty());
}

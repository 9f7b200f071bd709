use hcp_rs::multi_group_model::Move;
use hcp_rs::multi_group_model::MultiGroupModel;

fn _test_model() -> MultiGroupModel {
    MultiGroupModel::with_groups(
        vec![
            9, 41, 25, 13, 73, 137, 11, 33, 17, 5, 65, 129, 3, 33, 33, 17, 17, 5, 5, 65, 65, 129,
            129, 3, 3,
        ],
        8,
        64,
    )
}

fn size_sum(model: &MultiGroupModel) -> usize {
    model.all_group_sizes().iter().sum()
}

#[test]
fn add_group() {
    let mut model = _test_model();
    let g = 1;
    let old = model.clone();
    let op = model.add_group(g);
    assert_eq!(model.num_groups(), old.num_groups() + 1);
    assert_eq!(size_sum(&model), size_sum(&old));
    assert_eq!(model.group_size(g), 0);

    let mut undone = model.clone();
    undone.undo_move(op);
    assert_eq!(old.num_groups(), undone.num_groups());
    assert_eq!(old.all_group_sizes(), undone.all_group_sizes());
    assert_eq!(old.all_groups(), undone.all_groups());
}

#[test]
fn remove_group() {
    let mut model = _test_model();
    // group 1 is not empty here, so removal forgets its memberships and
    // only the group count round-trips through the undo
    let g = 1;
    let old = model.clone();
    let op = model.remove_group(g);
    assert_eq!(model.num_groups(), old.num_groups() - 1);
    assert_eq!(size_sum(&model), size_sum(&old) - old.all_group_sizes()[g]);

    let mut undone = model.clone();
    undone.undo_move(op);
    assert_eq!(old.num_groups(), undone.num_groups());
}

#[test]
fn add_node_to_group_by_idx() {
    let mut model = _test_model();
    let g = 1;
    let idx = 3;
    let old = model.clone();
    let op = model.add_node_to_group_by_idx(g, idx);
    assert_eq!(model.num_groups(), old.num_groups());
    match op {
        Move::AddNodeToGroup { node, .. } => assert!(model.groups_of(node) & (1 << g) != 0),
        _ => panic!("not an add_node_to_group operation"),
    }
    assert_eq!(size_sum(&model), size_sum(&old) + 1);
    assert_eq!(model.group_size(g), old.group_size(g) + 1);

    let mut undone = model.clone();
    undone.undo_move(op);
    assert_eq!(old.num_groups(), undone.num_groups());
    assert_eq!(old.all_group_sizes(), undone.all_group_sizes());
    assert_eq!(old.all_groups(), undone.all_groups());
}

#[test]
fn remove_node_from_group_by_idx() {
    let mut model = _test_model();

    let g = 1;
    let idx = 3;
    let old = model.clone();
    let op = model.remove_node_from_group_by_idx(g, idx);
    assert_eq!(model.num_groups(), old.num_groups());
    match op {
        Move::RemoveNodeFromGroup { node, .. } => assert!(model.groups_of(node) & (1 << g) == 0),
        _ => panic!("not an remove_node_from_group operation"),
    }
    assert_eq!(size_sum(&model), size_sum(&old) - 1);
    assert_eq!(model.group_size(g), old.group_size(g) - 1);

    let mut undone = model.clone();
    undone.undo_move(op);
    assert_eq!(old.num_groups(), undone.num_groups());
    assert_eq!(old.all_group_sizes(), undone.all_group_sizes());
    assert_eq!(old.all_groups(), undone.all_groups());
}

#[test]
fn with_groups_builds_ascending_rosters() {
    let model = MultiGroupModel::with_groups(vec![1, 3, 1, 3], 2, 4);
    assert_eq!(model.num_groups(), 2);
    assert_eq!(model.num_nodes(), 4);
    assert_eq!(model.all_group_sizes(), &vec![4, 2]);
    assert_eq!(model.groups_of(1), 3);
}

#[test]
fn add_then_remove_group_is_identity() {
    let mut model = _test_model();
    let before = model.clone();
    model.add_group(2);
    model.remove_group(2);
    assert_eq!(model.num_groups(), before.num_groups());
    assert_eq!(model.all_group_sizes(), before.all_group_sizes());
    assert_eq!(model.all_groups(), before.all_groups());
}

#[test]
fn hcg_picks_highest_common_bit() {
    let model = _test_model();
    // nodes 0 and 1 share only group 3; nodes 1 and 13 share group 5
    assert_eq!(model.hcg(0, 1), 3);
    assert_eq!(model.hcg(1, 13), 5);
    assert_eq!(model.hcg(0, 7), 0);
    assert_eq!(model.hcg_node(9, 1), 3);
}

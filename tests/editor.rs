use railway_editor::editor::Layout;
use railway_editor::{
    AppMode, Block, Connection, ConnectionType, Direction, EditError, Group, RailwayEditor,
};

fn place(e: &mut RailwayEditor, x: i32, y: i32) -> (u32, u32) {
    e.place_block((x, y)).unwrap().unwrap()
}

fn group_of(e: &RailwayEditor, id: u32) -> &Group {
    e.groups.iter().find(|g| g.id == id).unwrap()
}

fn block_id_at(e: &RailwayEditor, x: i32, y: i32) -> u32 {
    for g in &e.groups {
        for b in &g.blocks {
            if b.grid_pos == (x, y) {
                return b.id;
            }
        }
    }
    panic!("no block at ({}, {})", x, y);
}

fn total_blocks(e: &RailwayEditor) -> usize {
    e.groups.iter().map(|g| g.blocks.len()).sum()
}

fn all_connections_resolve(e: &RailwayEditor) -> bool {
    e.groups.iter().all(|g| {
        g.connections.iter().all(|c| {
            e.groups.iter().any(|h| h.id == c.from_group)
                && e.groups.iter().any(|h| h.id == c.to_group)
        })
    })
}

#[test]
fn default_editor_is_empty() {
    let e = RailwayEditor::default();
    assert!(e.groups.is_empty());
    assert_eq!(e.next_block_id, 1);
    assert_eq!(e.next_group_id, 1);
    assert_eq!(e.app_mode, AppMode::Normal);
    assert_eq!(e.selected_blocks.len(), 0);
}

#[test]
fn first_block_starts_a_group() {
    let mut e = RailwayEditor::default();
    let r = e.place_block((3, 4));
    assert_eq!(r, Ok(Some((1, 1))));
    assert_eq!(e.groups.len(), 1);
    let g = &e.groups[0];
    assert_eq!(g.blocks.len(), 1);
    assert!(g.direction.is_none());
    assert_eq!(g.start_block_id, Some(1));
    assert_eq!(g.end_block_id, Some(1));
    assert_eq!(e.next_block_id, 2);
    assert_eq!(e.next_group_id, 2);
}

#[test]
fn placing_on_occupied_cell_changes_nothing() {
    let mut e = RailwayEditor::default();
    place(&mut e, 0, 0);
    place(&mut e, 1, 0);
    let blocks = total_blocks(&e);
    let groups = e.groups.len();
    assert_eq!(e.place_block((1, 0)), Ok(None));
    assert_eq!(total_blocks(&e), blocks);
    assert_eq!(e.groups.len(), groups);
    assert_eq!(e.next_block_id, 3);
}

#[test]
fn horizontal_group_takes_block_on_its_row() {
    let mut e = RailwayEditor::default();
    let (_, g) = place(&mut e, 0, 0);
    place(&mut e, 1, 0);
    assert_eq!(group_of(&e, g).direction, Some(Direction::Horizontal));
    let (b, g2) = place(&mut e, 2, 0);
    assert_eq!(g2, g);
    assert_eq!(b, 3);
    assert_eq!(group_of(&e, g).direction, Some(Direction::Horizontal));
    assert_eq!(group_of(&e, g).blocks.len(), 3);
}

#[test]
fn horizontal_group_refuses_block_off_its_row() {
    let mut e = RailwayEditor::default();
    place(&mut e, 0, 0);
    place(&mut e, 1, 0);
    let r = e.place_block((1, 1));
    assert_eq!(r, Err(EditError::NotCompatible));
    assert_eq!(e.groups.len(), 1);
    assert_eq!(total_blocks(&e), 2);
    assert_eq!(e.next_block_id, 3);
}

#[test]
fn three_blocks_in_a_row() {
    let mut e = RailwayEditor::default();
    let (a, g) = place(&mut e, 0, 0);
    place(&mut e, 1, 0);
    let (c, _) = place(&mut e, 2, 0);
    let grp = group_of(&e, g);
    assert_eq!(grp.direction, Some(Direction::Horizontal));
    assert_eq!(grp.start_block_id, Some(a));
    assert_eq!(grp.end_block_id, Some(c));
}

#[test]
fn endpoints_follow_coordinates_not_insertion() {
    let mut e = RailwayEditor::default();
    let (a, g) = place(&mut e, 0, 2);
    place(&mut e, 0, 1);
    let (c, _) = place(&mut e, 0, 0);
    let grp = group_of(&e, g);
    assert_eq!(grp.direction, Some(Direction::Vertical));
    assert_eq!(grp.start_block_id, Some(c));
    assert_eq!(grp.end_block_id, Some(a));
    let ys: Vec<i32> = grp.blocks.iter().map(|b| b.grid_pos.1).collect();
    assert_eq!(ys, vec![0, 1, 2]);
}

#[test]
fn endpoint_selectable_in_connection_mode() {
    let mut e = RailwayEditor::default();
    let (a, _) = place(&mut e, 0, 0);
    let (m, _) = place(&mut e, 1, 0);
    let (c, _) = place(&mut e, 2, 0);
    e.toggle_connection_panel();
    assert_eq!(e.app_mode, AppMode::SetConnections);
    assert_eq!(e.select_block(a, false), Ok(()));
    assert_eq!(e.select_block(c, true), Ok(()));
    assert_eq!(e.selected_blocks.len(), 2);
    assert_eq!(e.select_block(m, false), Err(EditError::NotEndpoint));
    assert!(e.show_message_box);
    assert_eq!(e.selected_blocks.len(), 0);
}

#[test]
fn any_block_selectable_in_normal_mode() {
    let mut e = RailwayEditor::default();
    place(&mut e, 0, 0);
    let (m, _) = place(&mut e, 1, 0);
    place(&mut e, 2, 0);
    assert_eq!(e.select_block(m, false), Ok(()));
    assert!(e.selected_blocks.contains(&m));
    assert_eq!(e.select_block(99, false), Err(EditError::UnknownBlock));
}

#[test]
fn additive_selection_toggles() {
    let mut e = RailwayEditor::default();
    let (a, _) = place(&mut e, 0, 0);
    let (b, _) = place(&mut e, 5, 5);
    e.select_block(a, false).unwrap();
    e.select_block(b, true).unwrap();
    assert_eq!(e.selected_blocks.iter().copied().collect::<Vec<u32>>(), vec![a, b]);
    e.select_block(a, true).unwrap();
    assert_eq!(e.selected_blocks.iter().copied().collect::<Vec<u32>>(), vec![b]);
    e.select_block(a, false).unwrap();
    assert_eq!(e.selected_blocks.iter().copied().collect::<Vec<u32>>(), vec![a]);
}

fn two_segments() -> (RailwayEditor, u32, u32) {
    let mut e = RailwayEditor::default();
    let (_, g1) = place(&mut e, 0, 0);
    place(&mut e, 1, 0);
    let (_, g2) = place(&mut e, 0, 5);
    place(&mut e, 1, 5);
    e.toggle_connection_panel();
    (e, g1, g2)
}

#[test]
fn repeated_connection_is_duplicate_and_reverse_is_not() {
    let (mut e, g1, g2) = two_segments();
    let a = block_id_at(&e, 0, 0);
    let b = block_id_at(&e, 1, 5);
    e.select_block(a, false).unwrap();
    e.select_block(b, true).unwrap();
    let c = e.connect_groups().unwrap().unwrap();
    assert_eq!(c.from_group, g1);
    assert_eq!(c.to_group, g2);
    assert_eq!(c.from_connection_type, ConnectionType::Start);
    assert_eq!(c.to_connection_type, ConnectionType::End);
    assert_eq!(e.selected_blocks.len(), 0);

    e.select_block(a, false).unwrap();
    e.select_block(b, true).unwrap();
    assert_eq!(e.connect_groups(), Err(EditError::DuplicateConnection));
    assert!(e.show_message_box);
    assert_eq!(e.selected_blocks.len(), 0);
    assert_eq!(group_of(&e, g1).connections.len(), 1);

    e.select_block(b, false).unwrap();
    e.select_block(a, true).unwrap();
    let r = e.connect_groups().unwrap().unwrap();
    assert_eq!(r.from_group, g2);
    assert_eq!(r.to_group, g1);
    assert_eq!(r.from_connection_type, ConnectionType::End);
    assert_eq!(r.to_connection_type, ConnectionType::Start);
    assert_eq!(group_of(&e, g2).connections.len(), 1);
}

#[test]
fn connect_needs_two_selected() {
    let (mut e, _, _) = two_segments();
    assert_eq!(e.connect_groups(), Ok(None));
    let a = block_id_at(&e, 0, 0);
    e.select_block(a, false).unwrap();
    assert_eq!(e.connect_groups(), Ok(None));
    assert_eq!(e.selected_blocks.len(), 1);
}

#[test]
fn deleting_a_group_drops_its_connections() {
    let mut e = RailwayEditor::default();
    let (_, g1) = place(&mut e, 0, 0);
    let (_, g2) = place(&mut e, 0, 5);
    let (_, g3) = place(&mut e, 0, 10);
    e.toggle_connection_panel();
    let a = block_id_at(&e, 0, 0);
    let b = block_id_at(&e, 0, 5);
    let c = block_id_at(&e, 0, 10);
    e.select_block(a, false).unwrap();
    e.select_block(b, true).unwrap();
    e.connect_groups().unwrap();
    e.select_block(b, false).unwrap();
    e.select_block(c, true).unwrap();
    e.connect_groups().unwrap();
    e.select_block(c, false).unwrap();
    e.select_block(b, true).unwrap();
    e.connect_groups().unwrap();

    e.select_block(a, false).unwrap();
    e.remove_selected_blocks();
    assert!(e.groups.iter().all(|g| g.id != g1));
    assert_eq!(e.selected_blocks.len(), 0);
    assert!(all_connections_resolve(&e));
    assert_eq!(group_of(&e, g2).connections.len(), 1);
    assert_eq!(group_of(&e, g2).connections[0].to_group, g3);
    assert_eq!(group_of(&e, g3).connections.len(), 1);
}

#[test]
fn deleting_part_of_a_group_recomputes_it() {
    let mut e = RailwayEditor::default();
    let (a, g) = place(&mut e, 0, 0);
    let (b, _) = place(&mut e, 1, 0);
    let (c, _) = place(&mut e, 2, 0);
    e.select_block(c, false).unwrap();
    e.remove_selected_blocks();
    let grp = group_of(&e, g);
    assert_eq!(grp.blocks.len(), 2);
    assert_eq!(grp.start_block_id, Some(a));
    assert_eq!(grp.end_block_id, Some(b));
    e.select_block(b, false).unwrap();
    e.remove_selected_blocks();
    let grp = group_of(&e, g);
    assert!(grp.direction.is_none());
    assert_eq!(grp.start_block_id, Some(a));
    assert_eq!(grp.end_block_id, Some(a));
}

#[test]
fn save_then_load_round_trip() {
    let (mut e, _, _) = two_segments();
    let a = block_id_at(&e, 0, 0);
    let b = block_id_at(&e, 1, 5);
    e.select_block(a, false).unwrap();
    e.select_block(b, true).unwrap();
    e.connect_groups().unwrap();
    let saved = e.save_layout();
    let before = e.save_layout();
    assert_eq!(e.load_layout(saved), Ok(()));
    let after = e.save_layout();
    assert_eq!(after.next_block_id, before.next_block_id);
    assert_eq!(after.next_group_id, before.next_group_id);
    assert_eq!(after.groups.len(), before.groups.len());
    for (x, y) in after.groups.iter().zip(before.groups.iter()) {
        assert_eq!(x.id, y.id);
        assert_eq!(x.blocks, y.blocks);
        assert_eq!(x.connections, y.connections);
        assert_eq!(x.direction, y.direction);
        assert_eq!(x.start_block_id, y.start_block_id);
        assert_eq!(x.end_block_id, y.end_block_id);
    }
}

#[test]
fn invalid_layout_is_refused() {
    let mut e = RailwayEditor::default();
    place(&mut e, 0, 0);
    let bad = Layout {
        groups: vec![Group {
            id: 7,
            blocks: vec![],
            connections: vec![],
            direction: None,
            start_block_id: None,
            end_block_id: None,
        }],
        next_block_id: 1,
        next_group_id: 8,
        app_mode: AppMode::Normal,
    };
    assert_eq!(e.load_layout(bad), Err(EditError::InvalidLayout));
    assert!(e.show_message_box);
    assert_eq!(e.groups.len(), 1);
    assert_eq!(e.groups[0].id, 1);
}

#[test]
fn merging_connected_groups_keeps_references() {
    let mut e = RailwayEditor::default();
    let (_, g1) = place(&mut e, 0, 0);
    place(&mut e, 1, 0);
    let (_, g2) = place(&mut e, 3, 0);
    place(&mut e, 4, 0);
    let (_, g3) = place(&mut e, 0, 5);
    e.toggle_connection_panel();
    let a = block_id_at(&e, 4, 0);
    let c = block_id_at(&e, 0, 5);
    e.select_block(a, false).unwrap();
    e.select_block(c, true).unwrap();
    e.connect_groups().unwrap().unwrap();
    e.select_block(c, false).unwrap();
    e.select_block(a, true).unwrap();
    e.connect_groups().unwrap().unwrap();

    let (_, target) = place(&mut e, 2, 0);
    assert!(target == g1 || target == g2);
    assert_eq!(e.groups.len(), 2);
    assert!(all_connections_resolve(&e));
    let merged = group_of(&e, target);
    assert_eq!(merged.blocks.len(), 5);
    assert_eq!(merged.direction, Some(Direction::Horizontal));
    assert_eq!(merged.start_block_id, Some(block_id_at(&e, 0, 0)));
    assert_eq!(merged.end_block_id, Some(block_id_at(&e, 4, 0)));
    assert_eq!(merged.connections.len(), 1);
    assert_eq!(merged.connections[0].to_group, g3);
    assert_eq!(group_of(&e, g3).connections[0].to_group, target);
}

#[test]
fn merge_that_bends_is_refused() {
    let mut e = RailwayEditor::default();
    let (_, h) = place(&mut e, 0, 0);
    place(&mut e, 1, 0);
    let (_, v) = place(&mut e, 2, 2);
    place(&mut e, 2, 1);
    let (b, target) = place(&mut e, 2, 0);
    assert_eq!(target, v);
    assert_eq!(e.groups.len(), 2);
    assert_eq!(group_of(&e, h).blocks.len(), 2);
    assert!(group_of(&e, v).blocks.iter().any(|x| x.id == b));
    assert_eq!(group_of(&e, v).start_block_id, Some(b));
    assert!(e.show_message_box);
    assert_eq!(e.merge_groups(h, v), Err(EditError::IncompatibleMerge));
}

#[test]
fn merge_groups_directly() {
    let mut e = RailwayEditor::default();
    let (_, g1) = place(&mut e, 0, 0);
    let (_, g2) = place(&mut e, 0, 2);
    assert_eq!(e.merge_groups(g1, 42), Err(EditError::UnknownGroup));
    assert_eq!(e.merge_groups(g1, g1), Ok(()));
    assert_eq!(e.groups.len(), 2);
    assert_eq!(e.merge_groups(g1, g2), Ok(()));
    assert_eq!(e.groups.len(), 1);
    let grp = group_of(&e, g2);
    assert_eq!(grp.direction, Some(Direction::Vertical));
    assert_eq!(grp.blocks.len(), 2);
}

#[test]
fn neighbours_found_in_every_direction() {
    let mut e = RailwayEditor::default();
    let (_, up) = place(&mut e, 5, 6);
    let (_, right) = place(&mut e, 6, 5);
    let (_, down) = place(&mut e, 5, 4);
    let (_, left) = place(&mut e, 4, 5);
    assert_eq!(e.find_neighboring_groups((5, 5)), vec![up, right, down, left]);
    assert!(e.find_neighboring_groups((10, 10)).is_empty());
    assert!(e.is_occupied((6, 5)));
    assert!(!e.is_occupied((5, 5)));
}

#[test]
fn neighbours_at_the_edge_of_the_grid() {
    let mut e = RailwayEditor::default();
    let (_, g) = place(&mut e, i32::MAX, i32::MIN);
    assert_eq!(e.find_neighboring_groups((i32::MAX - 1, i32::MIN)), vec![g]);
    assert!(e.find_neighboring_groups((i32::MIN, i32::MAX)).is_empty());
}

#[test]
fn can_add_to_group_follows_direction() {
    let mut e = RailwayEditor::default();
    let (_, g) = place(&mut e, 0, 0);
    assert!(e.can_add_to_group(g, (9, 9)));
    place(&mut e, 0, 1);
    assert!(e.can_add_to_group(g, (0, 2)));
    assert!(!e.can_add_to_group(g, (1, 1)));
    assert!(!e.can_add_to_group(77, (0, 2)));
}

#[test]
fn update_group_direction_reads_first_two_blocks() {
    let mut e = RailwayEditor::default();
    let (_, g) = place(&mut e, 0, 0);
    place(&mut e, 1, 0);
    e.groups[0].direction = None;
    e.update_group_direction(g);
    assert_eq!(e.groups[0].direction, Some(Direction::Horizontal));
}

#[test]
fn ids_exhausted() {
    let mut e = RailwayEditor::default();
    e.next_block_id = u32::MAX;
    assert_eq!(e.place_block((0, 0)), Err(EditError::IdsExhausted));
    assert!(e.groups.is_empty());
}

#[test]
fn connection_default_is_unknown() {
    let c = Connection::default();
    assert_eq!(c.from_group, 0);
    assert_eq!(c.to_group, 0);
    assert_eq!(c.from_connection_type, ConnectionType::Unknown);
    assert_eq!(c.to_connection_type, ConnectionType::Unknown);
}

#[test]
fn check_selected_blocks_cases() {
    let g = Group {
        id: 1,
        blocks: vec![],
        connections: vec![],
        direction: None,
        start_block_id: None,
        end_block_id: None,
    };
    assert!(g.check_selected_blocks(5, None, None));
    assert!(g.check_selected_blocks(5, Some(1), None));
    assert!(g.check_selected_blocks(5, Some(5), Some(9)));
    assert!(g.check_selected_blocks(9, Some(5), Some(9)));
    assert!(!g.check_selected_blocks(7, Some(5), Some(9)));
}

#[test]
fn update_start_end_blocks_sorts_along_direction() {
    let mut g = Group {
        id: 1,
        blocks: vec![
            Block { id: 1, grid_pos: (3, 0) },
            Block { id: 2, grid_pos: (1, 0) },
            Block { id: 3, grid_pos: (2, 0) },
        ],
        connections: vec![],
        direction: Some(Direction::Horizontal),
        start_block_id: None,
        end_block_id: None,
    };
    g.update_start_end_blocks();
    assert_eq!(g.start_block_id, Some(2));
    assert_eq!(g.end_block_id, Some(1));
    let ids: Vec<u32> = g.blocks.iter().map(|b| b.id).collect();
    assert_eq!(ids, vec![2, 3, 1]);

    let mut empty = Group {
        id: 2,
        blocks: vec![],
        connections: vec![],
        direction: None,
        start_block_id: Some(4),
        end_block_id: Some(4),
    };
    empty.update_start_end_blocks();
    assert_eq!(empty.start_block_id, None);
    assert_eq!(empty.end_block_id, None);
}

#[test]
fn validity_check_follows_the_invariant() {
    let mut e = RailwayEditor::default();
    assert!(e.is_valid());
    place(&mut e, 0, 0);
    place(&mut e, 1, 0);
    place(&mut e, 5, 5);
    assert!(e.is_valid());
    e.groups[0].blocks.push(Block { id: 1, grid_pos: (2, 0) });
    assert!(!e.is_valid());
    e.groups[0].blocks.pop();
    e.groups[1].id = e.groups[0].id;
    assert!(!e.is_valid());
}

#[test]
fn messages_name_the_refusal() {
    let (mut e, _, _) = two_segments();
    let a = block_id_at(&e, 0, 0);
    let b = block_id_at(&e, 1, 5);
    e.select_block(a, false).unwrap();
    e.select_block(b, true).unwrap();
    e.connect_groups().unwrap();
    assert!(!e.show_message_box);
    e.select_block(a, false).unwrap();
    e.select_block(b, true).unwrap();
    assert_eq!(e.connect_groups(), Err(EditError::DuplicateConnection));
    assert_eq!(e.message, "Given connection already exists");

    let mut f = RailwayEditor::default();
    place(&mut f, 0, 0);
    let (m, _) = place(&mut f, 1, 0);
    place(&mut f, 2, 0);
    f.toggle_connection_panel();
    assert_eq!(f.select_block(m, false), Err(EditError::NotEndpoint));
    assert_eq!(f.message, "Cannot select the block");
}

#[test]
fn refused_merge_leaves_the_other_group_and_says_so() {
    let mut e = RailwayEditor::default();
    let (_, h) = place(&mut e, 0, 0);
    place(&mut e, 1, 0);
    let (_, v) = place(&mut e, 2, 2);
    place(&mut e, 2, 1);
    let before: Vec<Block> = group_of(&e, h).blocks.clone();
    place(&mut e, 2, 0);
    assert_eq!(group_of(&e, h).blocks, before);
    assert_eq!(group_of(&e, v).blocks.len(), 3);
    assert_eq!(e.message, "Cannot merge groups that are not in line");
}

#[test]
fn group_counter_only_matters_for_a_new_group() {
    let mut e = RailwayEditor::default();
    let (_, g) = place(&mut e, 0, 0);
    e.next_group_id = u32::MAX;
    assert_eq!(e.place_block((1, 0)), Ok(Some((2, g))));
    assert_eq!(e.place_block((9, 9)), Err(EditError::IdsExhausted));
}

#[test]
fn load_refuses_shared_cells_and_unknown_ends() {
    let mk = |id: u32, bid: u32, conns: Vec<Connection>| Group {
        id,
        blocks: vec![Block { id: bid, grid_pos: (0, 0) }],
        connections: conns,
        direction: None,
        start_block_id: Some(bid),
        end_block_id: Some(bid),
    };
    let mut e = RailwayEditor::default();
    let overlapping = Layout {
        groups: vec![mk(1, 1, vec![]), mk(2, 2, vec![])],
        next_block_id: 3,
        next_group_id: 3,
        app_mode: AppMode::Normal,
    };
    assert_eq!(e.load_layout(overlapping), Err(EditError::InvalidLayout));
    let unknown = Layout {
        groups: vec![mk(1, 1, vec![Connection::default()])],
        next_block_id: 2,
        next_group_id: 2,
        app_mode: AppMode::Normal,
    };
    assert_eq!(e.load_layout(unknown), Err(EditError::InvalidLayout));
    let fine = Layout {
        groups: vec![mk(1, 1, vec![])],
        next_block_id: 2,
        next_group_id: 2,
        app_mode: AppMode::Normal,
    };
    assert_eq!(e.load_layout(fine), Ok(()));
}

#[test]
fn endpoint_sort_keeps_equal_keys_in_order() {
    let mut g = Group {
        id: 1,
        blocks: vec![
            Block { id: 1, grid_pos: (2, 0) },
            Block { id: 2, grid_pos: (1, 5) },
            Block { id: 3, grid_pos: (2, 7) },
            Block { id: 4, grid_pos: (1, 9) },
        ],
        connections: vec![],
        direction: Some(Direction::Horizontal),
        start_block_id: None,
        end_block_id: None,
    };
    g.update_start_end_blocks();
    let ids: Vec<u32> = g.blocks.iter().map(|b| b.id).collect();
    assert_eq!(ids, vec![2, 4, 1, 3]);
    g.update_start_end_blocks();
    let again: Vec<u32> = g.blocks.iter().map(|b| b.id).collect();
    assert_eq!(again, ids);
}

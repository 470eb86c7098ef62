use vstd::prelude::*;
use indexmap::IndexSet;
use crate::models::{
    lemma_member_moves, lemma_direction_kept, lemma_straight_direction, straight, is_straight,
    block_at, collinear_along, cross_key, distinct_cells, has_block_id,
    inferred_direction, distinct_ids, lemma_concat_distinct_ids, Block, Connection,
    ConnectionType, Direction, Group,
};
use crate::selection::{
    sel_clear, sel_contains, sel_first, sel_insert, sel_last, sel_len, sel_new, sel_shift_remove,
    selection_of,
};

verus! {

/// Free editing, or choosing group endpoints to connect.
#[derive(Clone, Copy, Debug, PartialEq, Eq, Structural)]
pub enum AppMode {
    Normal,
    SetConnections,
}

/// Why an editing operation was refused. A refused operation changes nothing
/// but, where noted, the message shown to the user.
#[derive(Clone, Copy, Debug, PartialEq, Eq, Structural)]
pub enum EditError {
    /// No neighbouring group can take the block along its direction.
    NotCompatible,
    /// The two groups would not form one straight run on distinct cells.
    IncompatibleMerge,
    /// A group id that is not present.
    UnknownGroup,
    /// A block id that is not present.
    UnknownBlock,
    /// In connection mode, a block that is not an endpoint of its group.
    NotEndpoint,
    /// The connection is already recorded on its source group.
    DuplicateConnection,
    /// The block counter, or the group counter when a new group is needed, is
    /// at its largest value.
    IdsExhausted,
    /// A loaded layout breaks the invariant of the editor.
    InvalidLayout,
}

/// The whole editing state: the groups, in a stable order, the id counters,
/// the mode, the selection and the message for the user.
pub struct RailwayEditor {
    pub groups: Vec<Group>,
    pub next_block_id: u32,
    pub next_group_id: u32,
    pub selected_blocks: IndexSet<u32>,
    pub show_connection_panel: bool,
    pub app_mode: AppMode,
    pub show_message_box: bool,
    pub message: String,
}

/// Some group carries id `id`.
pub open spec fn live(gs: Seq<Group>, id: u32) -> bool {
    exists|i: int| 0 <= i < gs.len() && gs[i].id == id
}

/// Some block of some group stands on `pos`.
pub open spec fn occupied(gs: Seq<Group>, pos: (i32, i32)) -> bool {
    exists|i: int| 0 <= i < gs.len() && block_at(#[trigger] gs[i].blocks@, pos)
}

/// The cell one step from `pos` in the direction numbered `k`: up, right,
/// down, left for 0 to 3 (y grows downwards).
pub open spec fn step(pos: (i32, i32), k: int) -> (int, int) {
    if k == 0 {
        (pos.0 as int, pos.1 + 1)
    } else if k == 1 {
        (pos.0 + 1, pos.1 as int)
    } else if k == 2 {
        (pos.0 as int, pos.1 - 1)
    } else {
        (pos.0 - 1, pos.1 as int)
    }
}

/// Some block of `s` stands on cell `c`.
pub open spec fn has_cell(s: Seq<Block>, c: (int, int)) -> bool {
    exists|i: int| 0 <= i < s.len() && s[i].grid_pos.0 == c.0 && s[i].grid_pos.1 == c.1
}

/// The neighbour list after looking at the first `i` groups in direction
/// `k`, starting from `acc`: each group with a block on that cell is added
/// once, in group order.
pub open spec fn scan_groups(gs: Seq<Group>, pos: (i32, i32), k: int, i: int, acc: Seq<u32>) -> Seq<u32>
    decreases i,
{
    if i <= 0 {
        acc
    } else {
        let a = scan_groups(gs, pos, k, i - 1, acc);
        if has_cell(gs[i - 1].blocks@, step(pos, k)) && !a.contains(gs[i - 1].id) {
            a.push(gs[i - 1].id)
        } else {
            a
        }
    }
}

/// The neighbour list after the first `k` directions.
pub open spec fn scan_dirs(gs: Seq<Group>, pos: (i32, i32), k: int) -> Seq<u32>
    decreases k,
{
    if k <= 0 {
        Seq::empty()
    } else {
        scan_groups(gs, pos, k - 1, gs.len() as int, scan_dirs(gs, pos, k - 1))
    }
}

/// The groups next to `pos` in the order in which they are found: up, right,
/// down, left, and within one direction in group order.
pub open spec fn neighbor_order(gs: Seq<Group>, pos: (i32, i32)) -> Seq<u32> {
    scan_dirs(gs, pos, 4)
}

/// Some block of `g` is orthogonally adjacent to `pos`.
pub open spec fn touches(g: Group, pos: (i32, i32)) -> bool {
    exists|k: int| 0 <= k < 4 && #[trigger] has_cell(g.blocks@, step(pos, k))
}

/// Whether `g` can take a block at `pos`: a group without direction takes
/// any; otherwise `pos` must share the fixed coordinate of its last block.
pub open spec fn compatible(g: Group, pos: (i32, i32)) -> bool {
    match g.direction {
        Some(Direction::Horizontal) => g.blocks@.len() > 0 ==> pos.1 == g.blocks@.last().grid_pos.1,
        Some(Direction::Vertical) => g.blocks@.len() > 0 ==> pos.0 == g.blocks@.last().grid_pos.0,
        None => true,
    }
}

/// Every connection of every group refers to groups that are present, and
/// to their start or end.
pub open spec fn connections_resolve(gs: Seq<Group>) -> bool {
    forall|i: int, c: int|
        0 <= i < gs.len() && 0 <= c < gs[i].connections@.len() ==> live(
            gs,
            #[trigger] gs[i].connections@[c].from_group,
        ) && live(gs, gs[i].connections@[c].to_group) && known_ends(gs[i].connections@[c])
}

/// Both ends of `c` are a start or an end.
pub open spec fn known_ends(c: Connection) -> bool {
    c.from_connection_type != ConnectionType::Unknown && c.to_connection_type
        != ConnectionType::Unknown
}

/// `c` with every reference to group `from` turned into one to group `to`.
pub open spec fn remap(c: Connection, from: u32, to: u32) -> Connection {
    Connection {
        from_group: if c.from_group == from {
            to
        } else {
            c.from_group
        },
        to_group: if c.to_group == from {
            to
        } else {
            c.to_group
        },
        ..c
    }
}

/// Every connection of `cs` remapped from group `from` to group `to`.
pub open spec fn remap_all(cs: Seq<Connection>, from: u32, to: u32) -> Seq<Connection> {
    cs.map_values(|c: Connection| remap(c, from, to))
}

/// Position of the group with id `id`; meaningful when it is live.
pub open spec fn index_of_group(gs: Seq<Group>, id: u32) -> int {
    choose|i: int| 0 <= i < gs.len() && gs[i].id == id
}

/// Position of the first group with id `id`; meaningful when it is live.
pub open spec fn index_of_first(gs: Seq<Group>, id: u32) -> int {
    choose|i: int|
        0 <= i < gs.len() && gs[i].id == id && forall|j: int| 0 <= j < i ==> gs[j].id != id
}

/// The group with id `id`; meaningful when it is live.
pub open spec fn group_with(gs: Seq<Group>, id: u32) -> Group {
    gs[index_of_group(gs, id)]
}

/// No two groups carry the same id.
pub open spec fn unique_ids(gs: Seq<Group>) -> bool {
    forall|i: int, j: int| 0 <= i < gs.len() && 0 <= j < gs.len() && i != j ==> gs[i].id != gs[j].id
}

/// `b` is `a` with the group references of its connections remapped.
pub open spec fn same_but_remapped(a: Group, b: Group, from: u32, to: u32) -> bool {
    &&& b.id == a.id
    &&& b.blocks@ == a.blocks@
    &&& b.direction == a.direction
    &&& b.start_block_id == a.start_block_id
    &&& b.end_block_id == a.end_block_id
    &&& b.connections@ == remap_all(a.connections@, from, to)
}

/// `after` is `before` once group `g1` has been merged into group `g2`: `g1`
/// is gone, `g2` holds the blocks and connections of both, and every
/// reference to `g1` now names `g2`.
pub open spec fn merged(before: Seq<Group>, after: Seq<Group>, g1: u32, g2: u32) -> bool {
    &&& forall|id: u32| live(after, id) <==> (live(before, id) && id != g1)
    &&& forall|id: u32|
        live(after, id) && id != g2 ==> same_but_remapped(
            group_with(before, id),
            #[trigger] group_with(after, id),
            g1,
            g2,
        )
    &&& group_with(after, g2).blocks@.to_multiset() =~= (group_with(before, g2).blocks@ + group_with(
        before,
        g1,
    ).blocks@).to_multiset()
    &&& group_with(after, g2).connections@ == remap_all(
        group_with(before, g2).connections@ + group_with(before, g1).connections@,
        g1,
        g2,
    )
}

/// With distinct ids, the group found by id is the one at that position.
pub proof fn lemma_group_with(gs: Seq<Group>, i: int)
    requires
        unique_ids(gs),
        0 <= i < gs.len(),
    ensures
        index_of_group(gs, gs[i].id) == i,
        group_with(gs, gs[i].id) == gs[i],
        live(gs, gs[i].id),
{
}

/// No block id and no cell is shared by two groups.
pub open spec fn blocks_disjoint(gs: Seq<Group>) -> bool {
    forall|i: int, j: int, b: Block, c: Block|
        0 <= i < gs.len() && 0 <= j < gs.len() && i != j && #[trigger] gs[i].blocks@.contains(b)
            && #[trigger] gs[j].blocks@.contains(c) ==> b.id != c.id && b.grid_pos != c.grid_pos
}

/// Groups drawn each from a different group of a layout whose groups share
/// no block id share none either.
pub proof fn lemma_disjoint_from_sources(og: Seq<Group>, ng: Seq<Group>, src: Seq<int>)
    requires
        blocks_disjoint(og),
        src.len() == ng.len(),
        forall|j: int| 0 <= j < src.len() ==> 0 <= #[trigger] src[j] < og.len(),
        forall|a: int, b: int| 0 <= a < src.len() && 0 <= b < src.len() && a != b ==> src[a] != src[b],
        forall|j: int, b: Block| 0 <= j < ng.len() && #[trigger] ng[j].blocks@.contains(b) ==> og[src[j]].blocks@.contains(b),
    ensures
        blocks_disjoint(ng),
{
    assert forall|i: int, j: int, b: Block, c: Block|
        0 <= i < ng.len() && 0 <= j < ng.len() && i != j && #[trigger] ng[i].blocks@.contains(b)
            && #[trigger] ng[j].blocks@.contains(c) implies b.id != c.id && b.grid_pos != c.grid_pos by {
        assert(og[src[i]].blocks@.contains(b));
        assert(og[src[j]].blocks@.contains(c));
    }
}

/// The invariant of a layout: well-formed groups with distinct ids below the
/// group counter, block ids below the block counter, no block id or cell
/// shared by two groups, and connections that resolve.
pub open spec fn layout_wf(gs: Seq<Group>, next_block_id: u32, next_group_id: u32) -> bool {
    &&& forall|i: int| 0 <= i < gs.len() ==> (#[trigger] gs[i]).wf()
    &&& unique_ids(gs)
    &&& blocks_disjoint(gs)
    &&& forall|i: int| 0 <= i < gs.len() ==> (#[trigger] gs[i]).id < next_group_id
    &&& forall|i: int, k: int|
        0 <= i < gs.len() && 0 <= k < gs[i].blocks@.len() ==> (#[trigger] gs[i].blocks@[k]).id
            < next_block_id
    &&& connections_resolve(gs)
}

fn cell_in(s: &Vec<Block>, x: i64, y: i64) -> (r: bool)
    ensures
        r == has_cell(s@, (x as int, y as int)),
{
    let mut i: usize = 0;
    while i < s.len()
        invariant
            i <= s@.len(),
            forall|j: int| 0 <= j < i ==> !(s@[j].grid_pos.0 == x && s@[j].grid_pos.1 == y),
        decreases s.len() - i,
    {
        if s[i].grid_pos.0 as i64 == x && s[i].grid_pos.1 as i64 == y {
            return true;
        }
        i = i + 1;
    }
    false
}

fn step_exec(pos: (i32, i32), k: usize) -> (r: (i64, i64))
    requires
        k < 4,
    ensures
        r.0 as int == step(pos, k as int).0,
        r.1 as int == step(pos, k as int).1,
{
    let x = pos.0 as i64;
    let y = pos.1 as i64;
    if k == 0 {
        (x, y + 1)
    } else if k == 1 {
        (x + 1, y)
    } else if k == 2 {
        (x, y - 1)
    } else {
        (x - 1, y)
    }
}

fn contains_id(v: &Vec<u32>, x: u32) -> (r: bool)
    ensures
        r == v@.contains(x),
{
    let mut i: usize = 0;
    while i < v.len()
        invariant
            i <= v@.len(),
            forall|j: int| 0 <= j < i ==> v@[j] != x,
        decreases v.len() - i,
    {
        if v[i] == x {
            return true;
        }
        i = i + 1;
    }
    false
}

impl RailwayEditor {
    /// The invariant that every operation keeps.
    pub open spec fn wf(&self) -> bool {
        layout_wf(self.groups@, self.next_block_id, self.next_group_id)
    }

    /// The ids currently selected, in the order of selection.
    pub open spec fn selection(&self) -> Seq<u32> {
        selection_of(self.selected_blocks)
    }

    /// Whether some block stands on `pos`.
    pub fn is_occupied(&self, pos: (i32, i32)) -> (r: bool)
        ensures
            r == occupied(self.groups@, pos),
    {
        let mut i: usize = 0;
        while i < self.groups.len()
            invariant
                i <= self.groups@.len(),
                forall|j: int| 0 <= j < i ==> !block_at(#[trigger] self.groups@[j].blocks@, pos),
            decreases self.groups.len() - i,
        {
            let found = cell_in(&self.groups[i].blocks, pos.0 as i64, pos.1 as i64);
            if found {
                assert(block_at(self.groups@[i as int].blocks@, pos));
                return true;
            }
            assert(!block_at(self.groups@[i as int].blocks@, pos)) by {
                if block_at(self.groups@[i as int].blocks@, pos) {
                    let k = choose|k: int|
                        0 <= k < self.groups@[i as int].blocks@.len()
                            && self.groups@[i as int].blocks@[k].grid_pos == pos;
                    assert(has_cell(self.groups@[i as int].blocks@, (pos.0 as int, pos.1 as int)));
                }
            }
            i = i + 1;
        }
        false
    }

    /// The ids of the groups that have a block next to `pos`, each once,
    /// found looking up, right, down and left in turn and through the groups
    /// in their order.
    pub fn find_neighboring_groups(&self, pos: (i32, i32)) -> (r: Vec<u32>)
        ensures
            r@ == neighbor_order(self.groups@, pos),
            r@.no_duplicates(),
            forall|id: u32|
                r@.contains(id) <==> exists|i: int|
                    0 <= i < self.groups@.len() && self.groups@[i].id == id && touches(
                        #[trigger] self.groups@[i],
                        pos,
                    ),
    {
        let mut neighbors: Vec<u32> = Vec::new();
        let mut k: usize = 0;
        while k < 4
            invariant
                k <= 4,
                neighbors@ == scan_dirs(self.groups@, pos, k as int),
                neighbors@.no_duplicates(),
                forall|id: u32|
                    neighbors@.contains(id) <==> exists|i: int, kk: int|
                        0 <= i < self.groups@.len() && 0 <= kk < k && self.groups@[i].id == id
                            && #[trigger] has_cell(self.groups@[i].blocks@, step(pos, kk)),
            decreases 4 - k,
        {
            let c = step_exec(pos, k);
            let mut i: usize = 0;
            while i < self.groups.len()
                invariant
                    k < 4,
                    c.0 as int == step(pos, k as int).0,
                    c.1 as int == step(pos, k as int).1,
                    i <= self.groups@.len(),
                    neighbors@ == scan_groups(self.groups@, pos, k as int, i as int, scan_dirs(self.groups@, pos, k as int)),
                    neighbors@.no_duplicates(),
                    forall|id: u32|
                        neighbors@.contains(id) <==> exists|j: int, kk: int|
                            0 <= j < self.groups@.len() && self.groups@[j].id == id && ((0 <= kk
                                < k) || (kk == k && j < i)) && #[trigger] has_cell(
                                self.groups@[j].blocks@,
                                step(pos, kk),
                            ),
                decreases self.groups.len() - i,
            {
                let id = self.groups[i].id;
                let found = cell_in(&self.groups[i].blocks, c.0, c.1);
                let ghost before = neighbors@;
                if found {
                    let present = contains_id(&neighbors, id);
                    if !present {
                        neighbors.push(id);
                    }
                }
                proof {
                    assert(step(pos, k as int) == (c.0 as int, c.1 as int));
                    assert(forall|idd: u32|
                        neighbors@.contains(idd) <==> (before.contains(idd) || (found && idd
                            == id))) by {
                        assert forall|idd: u32|
                            neighbors@.contains(idd) <==> (before.contains(idd) || (found && idd
                                == id)) by {
                            if neighbors@.contains(idd) {
                                let w = choose|w: int|
                                    0 <= w < neighbors@.len() && neighbors@[w] == idd;
                                if w < before.len() {
                                    assert(before[w] == idd);
                                }
                            }
                            if before.contains(idd) {
                                let w = choose|w: int| 0 <= w < before.len() && before[w] == idd;
                                assert(neighbors@[w] == idd);
                            }
                            if found && idd == id && !before.contains(idd) {
                                assert(neighbors@[before.len() as int] == idd);
                            }
                        }
                    }
                    assert forall|idd: u32|
                        neighbors@.contains(idd) <==> exists|j: int, kk: int|
                            0 <= j < self.groups@.len() && self.groups@[j].id == idd && ((0 <= kk
                                < k) || (kk == k && j < i + 1)) && #[trigger] has_cell(
                                self.groups@[j].blocks@,
                                step(pos, kk),
                            ) by {
                        if found && idd == id {
                            assert(has_cell(self.groups@[i as int].blocks@, step(pos, k as int)));
                        }
                        if before.contains(idd) {
                            let (j, kk) = choose|j: int, kk: int|
                                0 <= j < self.groups@.len() && self.groups@[j].id == idd && ((0
                                    <= kk < k) || (kk == k && j < i)) && #[trigger] has_cell(
                                    self.groups@[j].blocks@,
                                    step(pos, kk),
                                );
                            assert(has_cell(self.groups@[j].blocks@, step(pos, kk)));
                        }
                        if exists|j: int, kk: int|
                            0 <= j < self.groups@.len() && self.groups@[j].id == idd && ((0 <= kk
                                < k) || (kk == k && j < i + 1)) && #[trigger] has_cell(
                                self.groups@[j].blocks@,
                                step(pos, kk),
                            ) {
                            let (j, kk) = choose|j: int, kk: int|
                                0 <= j < self.groups@.len() && self.groups@[j].id == idd && ((0
                                    <= kk < k) || (kk == k && j < i + 1)) && #[trigger] has_cell(
                                    self.groups@[j].blocks@,
                                    step(pos, kk),
                                );
                            if !((0 <= kk < k) || (kk == k && j < i)) {
                                assert(j == i && kk == k);
                                assert(found);
                            } else {
                                assert(before.contains(idd));
                            }
                        }
                    }
                }
                i = i + 1;
            }
            k = k + 1;
        }
        assert forall|id: u32|
            neighbors@.contains(id) <==> exists|i: int|
                0 <= i < self.groups@.len() && self.groups@[i].id == id && touches(
                    #[trigger] self.groups@[i],
                    pos,
                ) by {
            if neighbors@.contains(id) {
                let (i, kk) = choose|i: int, kk: int|
                    0 <= i < self.groups@.len() && 0 <= kk < 4 && self.groups@[i].id == id
                        && #[trigger] has_cell(self.groups@[i].blocks@, step(pos, kk));
                assert(touches(self.groups@[i], pos));
            }
            if exists|i: int|
                0 <= i < self.groups@.len() && self.groups@[i].id == id && touches(
                    #[trigger] self.groups@[i],
                    pos,
                ) {
                let i = choose|i: int|
                    0 <= i < self.groups@.len() && self.groups@[i].id == id && touches(
                        #[trigger] self.groups@[i],
                        pos,
                    );
                let kk = choose|kk: int| 0 <= kk < 4 && #[trigger] has_cell(self.groups@[i].blocks@, step(pos, kk));
                assert(has_cell(self.groups@[i].blocks@, step(pos, kk)));
            }
        }
        neighbors
    }
}

impl Default for RailwayEditor {
    fn default() -> (r: Self)
        ensures
            r.wf(),
            r.groups@.len() == 0,
            r.next_block_id == 1,
            r.next_group_id == 1,
            r.selection() == Seq::<u32>::empty(),
            r.app_mode == AppMode::Normal,
            !r.show_connection_panel,
            !r.show_message_box,
            r.message@.len() == 0,
    {
        RailwayEditor {
            groups: Vec::new(),
            next_block_id: 1,
            next_group_id: 1,
            selected_blocks: sel_new(),
            show_connection_panel: false,
            app_mode: AppMode::Normal,
            show_message_box: false,
            message: String::new(),
        }
    }
}

impl RailwayEditor {
    /// Position of the group with id `id` in the group list.
    fn group_index(&self, id: u32) -> (r: Option<usize>)
        ensures
            r matches Some(i) ==> i < self.groups@.len() && self.groups@[i as int].id == id
                && forall|j: int| 0 <= j < i ==> self.groups@[j].id != id,
            r is None ==> !live(self.groups@, id),
    {
        let mut i: usize = 0;
        while i < self.groups.len()
            invariant
                i <= self.groups@.len(),
                forall|j: int| 0 <= j < i ==> self.groups@[j].id != id,
            decreases self.groups.len() - i,
        {
            if self.groups[i].id == id {
                return Some(i);
            }
            i = i + 1;
        }
        None
    }

    /// Sets the direction of group `group_id` from its first two blocks:
    /// vertical when they share x, horizontal otherwise, and none for a group
    /// of fewer than two blocks. Nothing else changes.
    pub fn update_group_direction(&mut self, group_id: u32)
        ensures
            final(self).groups@.len() == old(self).groups@.len(),
            forall|i: int|
                0 <= i < old(self).groups@.len() ==> #[trigger] final(self).groups@[i] == if old(
                    self,
                ).groups@[i].id == group_id {
                    Group { direction: inferred_direction(old(self).groups@[i].blocks@), ..old(self).groups@[i] }
                } else {
                    old(self).groups@[i]
                },
            final(self).next_block_id == old(self).next_block_id,
            final(self).next_group_id == old(self).next_group_id,
            final(self).selected_blocks == old(self).selected_blocks,
            final(self).app_mode == old(self).app_mode,
            final(self).message == old(self).message,
            final(self).show_message_box == old(self).show_message_box,
            final(self).show_connection_panel == old(self).show_connection_panel,
    {
        let mut i: usize = 0;
        while i < self.groups.len()
            invariant
                i <= self.groups@.len(),
                self.groups@.len() == old(self).groups@.len(),
                forall|j: int|
                    0 <= j < old(self).groups@.len() ==> #[trigger] self.groups@[j] == if j < i
                        && old(self).groups@[j].id == group_id {
                        Group { direction: inferred_direction(old(self).groups@[j].blocks@), ..old(self).groups@[j] }
                    } else {
                        old(self).groups@[j]
                    },
                self.next_block_id == old(self).next_block_id,
                self.next_group_id == old(self).next_group_id,
                self.selected_blocks == old(self).selected_blocks,
                self.app_mode == old(self).app_mode,
                self.message == old(self).message,
                self.show_message_box == old(self).show_message_box,
                self.show_connection_panel == old(self).show_connection_panel,
            decreases self.groups.len() - i,
        {
            if self.groups[i].id == group_id {
                let d = direction_of(&self.groups[i].blocks);
                self.groups[i].direction = d;
            }
            i = i + 1;
        }
    }

    /// Whether group `group_id` exists and can take a block at `pos`: with a
    /// direction, `pos` must share the fixed coordinate of its last block.
    pub fn can_add_to_group(&self, group_id: u32, pos: (i32, i32)) -> (r: bool)
        ensures
            !live(self.groups@, group_id) ==> !r,
            live(self.groups@, group_id) ==> r == compatible(
                self.groups@[index_of_first(self.groups@, group_id)],
                pos,
            ),
            unique_ids(self.groups@) ==> r == exists|i: int|
                0 <= i < self.groups@.len() && self.groups@[i].id == group_id && compatible(
                    #[trigger] self.groups@[i],
                    pos,
                ),
    {
        match self.group_index(group_id) {
            None => false,
            Some(i) => {
                proof {
                    let f = index_of_first(self.groups@, group_id);
                    assert(exists|x: int| 0 <= x < self.groups@.len() && self.groups@[x].id == group_id
                        && forall|j: int| 0 <= j < x ==> self.groups@[j].id != group_id);
                    assert(f == i as int) by {
                        if f < i {
                        } else if f > i {
                            assert(self.groups@[i as int].id == group_id);
                        }
                    }
                    if unique_ids(self.groups@) {
                        assert forall|q: int| 0 <= q < self.groups@.len() && self.groups@[q].id == group_id implies q == i by {}
                    }
                }
                let g = &self.groups[i];
                let n = g.blocks.len();
                let r = match g.direction {
                    Some(Direction::Horizontal) => n == 0 || pos.1 == g.blocks[n - 1].grid_pos.1,
                    Some(Direction::Vertical) => n == 0 || pos.0 == g.blocks[n - 1].grid_pos.0,
                    None => true,
                };
                assert(r == compatible(self.groups@[i as int], pos));
                r
            },
        }
    }
}

fn extend_copy<T: Copy>(dst: &mut Vec<T>, src: &Vec<T>)
    ensures
        final(dst)@ == old(dst)@ + src@,
{
    let mut k: usize = 0;
    while k < src.len()
        invariant
            k <= src@.len(),
            dst@ == old(dst)@ + src@.subrange(0, k as int),
        decreases src.len() - k,
    {
        dst.push(src[k]);
        k = k + 1;
        assert(src@.subrange(0, k as int) =~= src@.subrange(0, k - 1).push(src@[k - 1]));
    }
    assert(src@.subrange(0, k as int) =~= src@);
}

fn remap_exec(c: Connection, from: u32, to: u32) -> (r: Connection)
    ensures
        r == remap(c, from, to),
{
    Connection {
        from_group: if c.from_group == from {
            to
        } else {
            c.from_group
        },
        to_group: if c.to_group == from {
            to
        } else {
            c.to_group
        },
        from_connection_type: c.from_connection_type,
        to_connection_type: c.to_connection_type,
    }
}

/// Points every connection reference to group `from` at group `to` instead.
fn remap_connections(gs: &mut Vec<Group>, from: u32, to: u32)
    ensures
        final(gs)@.len() == old(gs)@.len(),
        forall|i: int|
            0 <= i < old(gs)@.len() ==> same_but_remapped(old(gs)@[i], #[trigger] final(gs)@[i], from, to),
{
    let mut i: usize = 0;
    while i < gs.len()
        invariant
            i <= gs@.len(),
            gs@.len() == old(gs)@.len(),
            forall|j: int| 0 <= j < i ==> same_but_remapped(old(gs)@[j], #[trigger] gs@[j], from, to),
            forall|j: int| i <= j < gs@.len() ==> #[trigger] gs@[j] == old(gs)@[j],
        decreases gs.len() - i,
    {
        let mut newc: Vec<Connection> = Vec::new();
        let mut k: usize = 0;
        while k < gs[i].connections.len()
            invariant
                i < gs@.len(),
                k <= gs@[i as int].connections@.len(),
                newc@ == remap_all(gs@[i as int].connections@.subrange(0, k as int), from, to),
            decreases gs@[i as int].connections@.len() - k,
        {
            let c = gs[i].connections[k];
            newc.push(remap_exec(c, from, to));
            k = k + 1;
            assert(newc@ =~= remap_all(gs@[i as int].connections@.subrange(0, k as int), from, to));
        }
        assert(gs@[i as int].connections@.subrange(0, k as int) =~= gs@[i as int].connections@);
        gs[i].connections = newc;
        i = i + 1;
    }
}

impl RailwayEditor {
    /// Merges group `group1_id` into group `group2_id`: the second takes the
    /// blocks and connections of the first, its direction and endpoints are
    /// recomputed, the first is removed, and every connection that named the
    /// first names the second. Group ids are never renumbered. The merge is
    /// refused, with nothing changed, when a group is missing or the blocks of
    /// both would not form one straight run.
    #[verifier::rlimit(60)]
    pub fn merge_groups(&mut self, group1_id: u32, group2_id: u32) -> (r: Result<(), EditError>)
        requires
            old(self).wf(),
        ensures
            final(self).wf(),
            final(self).next_block_id == old(self).next_block_id,
            final(self).next_group_id == old(self).next_group_id,
            final(self).selected_blocks == old(self).selected_blocks,
            final(self).app_mode == old(self).app_mode,
            final(self).message == old(self).message,
            final(self).show_message_box == old(self).show_message_box,
            final(self).show_connection_panel == old(self).show_connection_panel,
            group1_id == group2_id ==> r == Ok::<(), EditError>(()),
            group1_id != group2_id ==> (r == Err::<(), EditError>(EditError::UnknownGroup) <==> (!live(
                old(self).groups@,
                group1_id,
            ) || !live(old(self).groups@, group2_id))),
            group1_id != group2_id && live(old(self).groups@, group1_id) && live(
                old(self).groups@,
                group2_id,
            ) ==> (r == Err::<(), EditError>(EditError::IncompatibleMerge) <==> !straight(
                group_with(old(self).groups@, group2_id).blocks@ + group_with(
                    old(self).groups@,
                    group1_id,
                ).blocks@,
            )),
            group1_id != group2_id && live(old(self).groups@, group1_id) && live(
                old(self).groups@,
                group2_id,
            ) && straight(
                group_with(old(self).groups@, group2_id).blocks@ + group_with(
                    old(self).groups@,
                    group1_id,
                ).blocks@,
            ) ==> r == Ok::<(), EditError>(()),
            r is Err || group1_id == group2_id ==> final(self).groups@ == old(self).groups@,
            connections_resolve(final(self).groups@),
            r is Ok && group1_id != group2_id ==> merged(
                old(self).groups@,
                final(self).groups@,
                group1_id,
                group2_id,
            ),
    {
        if group1_id == group2_id {
            return Ok(());
        }
        let i1 = match self.group_index(group1_id) {
            None => {
                return Err(EditError::UnknownGroup);
            },
            Some(i) => i,
        };
        let i2 = match self.group_index(group2_id) {
            None => {
                return Err(EditError::UnknownGroup);
            },
            Some(i) => i,
        };
        let ghost og = self.groups@;
        proof {
            lemma_group_with(og, i1 as int);
            lemma_group_with(og, i2 as int);
        }
        let mut combined: Vec<Block> = Vec::new();
        extend_copy(&mut combined, &self.groups[i2].blocks);
        extend_copy(&mut combined, &self.groups[i1].blocks);
        assert(combined@ =~= og[i2 as int].blocks@ + og[i1 as int].blocks@);
        if !is_straight(&combined) {
            return Err(EditError::IncompatibleMerge);
        }
        let mut conns: Vec<Connection> = Vec::new();
        extend_copy(&mut conns, &self.groups[i2].connections);
        extend_copy(&mut conns, &self.groups[i1].connections);
        let removed = self.groups.remove(i1);
        let t = if i2 > i1 {
            i2 - 1
        } else {
            i2
        };
        let ghost og1 = self.groups@;
        assert(og1 =~= og.remove(i1 as int));
        assert(og1[t as int] == og[i2 as int]);
        proof {
            assert(og[i2 as int].wf() && og[i1 as int].wf());
            assert forall|x: Block, y: Block| og[i2 as int].blocks@.contains(x) && og[i1 as int].blocks@.contains(y) implies x.id != y.id by {
                assert(og[i2 as int].blocks@.contains(x));
                assert(og[i1 as int].blocks@.contains(y));
            }
            lemma_concat_distinct_ids(og[i2 as int].blocks@, og[i1 as int].blocks@);
        }
        self.groups[t].blocks = combined;
        self.groups[t].connections = conns;
        self.groups[t].settle();
        let ghost og2 = self.groups@;
        remap_connections(&mut self.groups, group1_id, group2_id);
        let ghost ng = self.groups@;
        proof {
            let n = ng.len();
            assert(n == og.len() - 1);
            // where each group of the result came from
            assert forall|j: int| 0 <= j < n && j != t implies #[trigger] og2[j] == og[if j < i1 {
                j
            } else {
                j + 1
            }] by {}
            assert forall|j: int| 0 <= j < n implies (#[trigger] ng[j]).id == og[if j < i1 {
                j
            } else {
                j + 1
            }].id by {}
            assert(unique_ids(ng)) by {
                assert forall|a: int, b: int| 0 <= a < n && 0 <= b < n && a != b implies ng[a].id
                    != ng[b].id by {
                    assert(ng[a].id == og[if a < i1 {
                        a
                    } else {
                        a + 1
                    }].id);
                    assert(ng[b].id == og[if b < i1 {
                        b
                    } else {
                        b + 1
                    }].id);
                }
            }
            assert forall|id: u32| live(ng, id) <==> (live(og, id) && id != group1_id) by {
                if live(ng, id) {
                    let j = choose|j: int| 0 <= j < n && ng[j].id == id;
                    let k = if j < i1 {
                        j
                    } else {
                        j + 1
                    };
                    assert(og[k].id == id);
                    assert(k != i1);
                }
                if live(og, id) && id != group1_id {
                    let k = choose|k: int| 0 <= k < og.len() && og[k].id == id;
                    assert(k != i1);
                    let j = if k < i1 {
                        k
                    } else {
                        k - 1
                    };
                    assert(ng[j].id == id);
                }
            }
            assert(ng[t as int].id == group2_id);
            lemma_group_with(ng, t as int);
            assert forall|id: u32| live(ng, id) && id != group2_id implies same_but_remapped(
                group_with(og, id),
                #[trigger] group_with(ng, id),
                group1_id,
                group2_id,
            ) by {
                let j = choose|j: int| 0 <= j < n && ng[j].id == id;
                lemma_group_with(ng, j);
                let k = if j < i1 {
                    j
                } else {
                    j + 1
                };
                lemma_group_with(og, k);
            }
            // well-formedness of every group
            assert forall|j: int| 0 <= j < n implies (#[trigger] ng[j]).wf() by {
                if j != t {
                    let k = if j < i1 {
                        j
                    } else {
                        j + 1
                    };
                    assert(og[k].wf());
                }
            }
            assert forall|j: int| 0 <= j < n implies (#[trigger] ng[j]).id < self.next_group_id by {
                let k = if j < i1 {
                    j
                } else {
                    j + 1
                };
                assert(og[k].id == ng[j].id);
            }
            assert forall|j: int, k: int| 0 <= j < n && 0 <= k < ng[j].blocks@.len() implies (
            #[trigger] ng[j].blocks@[k]).id < self.next_block_id by {
                if j != t {
                    let jj = if j < i1 {
                        j
                    } else {
                        j + 1
                    };
                    assert(ng[j].blocks@[k] == og[jj].blocks@[k]);
                } else {
                    let s = og[i2 as int].blocks@ + og[i1 as int].blocks@;
                    lemma_member_moves(ng[j].blocks@, s, ng[j].blocks@[k]);
                    let w = choose|w: int| 0 <= w < s.len() && s[w] == ng[j].blocks@[k];
                    if w < og[i2 as int].blocks@.len() {
                        assert(og[i2 as int].blocks@[w] == s[w]);
                    } else {
                        assert(og[i1 as int].blocks@[w - og[i2 as int].blocks@.len()] == s[w]);
                    }
                }
            }
            assert(blocks_disjoint(ng)) by {
                let sm = og[i2 as int].blocks@ + og[i1 as int].blocks@;
                assert forall|a: int, b: int, x: Block, y: Block|
                    0 <= a < n && 0 <= b < n && a != b && #[trigger] ng[a].blocks@.contains(x)
                        && #[trigger] ng[b].blocks@.contains(y) implies x.id != y.id && x.grid_pos != y.grid_pos by {
                    let sa = if a < i1 { a } else { a + 1 };
                    let sb = if b < i1 { b } else { b + 1 };
                    if a == t {
                        lemma_member_moves(ng[a].blocks@, sm, x);
                        let w = choose|w: int| 0 <= w < sm.len() && sm[w] == x;
                        let src = if w < og[i2 as int].blocks@.len() { i2 as int } else { i1 as int };
                        if w < og[i2 as int].blocks@.len() {
                            assert(og[i2 as int].blocks@[w] == x);
                        } else {
                            assert(og[i1 as int].blocks@[w - og[i2 as int].blocks@.len()] == x);
                        }
                        assert(og[src].blocks@.contains(x));
                        assert(og[sb].blocks@.contains(y));
                        assert(sb != src);
                    } else if b == t {
                        lemma_member_moves(ng[b].blocks@, sm, y);
                        let w = choose|w: int| 0 <= w < sm.len() && sm[w] == y;
                        let src = if w < og[i2 as int].blocks@.len() { i2 as int } else { i1 as int };
                        if w < og[i2 as int].blocks@.len() {
                            assert(og[i2 as int].blocks@[w] == y);
                        } else {
                            assert(og[i1 as int].blocks@[w - og[i2 as int].blocks@.len()] == y);
                        }
                        assert(og[src].blocks@.contains(y));
                        assert(og[sa].blocks@.contains(x));
                        assert(sa != src);
                    } else {
                        assert(og[sa].blocks@.contains(x));
                        assert(og[sb].blocks@.contains(y));
                    }
                }
            }
            assert(connections_resolve(ng)) by {
                assert forall|j: int, c: int| 0 <= j < n && 0 <= c < ng[j].connections@.len() implies live(
                    ng,
                    #[trigger] ng[j].connections@[c].from_group,
                ) && live(ng, ng[j].connections@[c].to_group) by {
                    let oc = og2[j].connections@[c];
                    assert(ng[j].connections@[c] == remap(oc, group1_id, group2_id));
                    let (src, ci) = if j != t {
                        let jj = if j < i1 {
                            j
                        } else {
                            j + 1
                        };
                        (jj, c)
                    } else if c < og[i2 as int].connections@.len() {
                        (i2 as int, c)
                    } else {
                        (i1 as int, c - og[i2 as int].connections@.len())
                    };
                    assert(oc == og[src].connections@[ci]);
                    assert(live(og, oc.from_group) && live(og, oc.to_group));
                }
            }
        }
        Ok(())
    }
}

/// The group that placing a block at `pos` creates when no group is next to
/// it.
pub open spec fn singleton(g: Group, block_id: u32, group_id: u32, pos: (i32, i32)) -> bool {
    &&& g.id == group_id
    &&& g.blocks@ == seq![Block { id: block_id, grid_pos: pos }]
    &&& g.connections@.len() == 0
    &&& g.direction is None
    &&& g.start_block_id == Some(block_id)
    &&& g.end_block_id == Some(block_id)
}

/// Some group next to `pos` can take a block there.
pub open spec fn accepts(gs: Seq<Group>, pos: (i32, i32)) -> bool {
    exists|i: int| 0 <= i < gs.len() && touches(#[trigger] gs[i], pos) && compatible(gs[i], pos)
}

/// Some group has a block next to `pos`.
pub open spec fn has_neighbor(gs: Seq<Group>, pos: (i32, i32)) -> bool {
    exists|i: int| 0 <= i < gs.len() && touches(#[trigger] gs[i], pos)
}

/// `c` with every reference to a group of `m` turned into one to `to`.
pub open spec fn remap_into(c: Connection, m: Set<u32>, to: u32) -> Connection {
    Connection {
        from_group: if m.contains(c.from_group) {
            to
        } else {
            c.from_group
        },
        to_group: if m.contains(c.to_group) {
            to
        } else {
            c.to_group
        },
        ..c
    }
}

pub open spec fn remap_all_into(cs: Seq<Connection>, m: Set<u32>, to: u32) -> Seq<Connection> {
    cs.map_values(|c: Connection| remap_into(c, m, to))
}

/// `after` is `before` once block `nb` has joined group `t` and the groups of
/// `m` have been merged into `t`: those groups are gone, `t` holds its own
/// blocks, `nb` and theirs, and every other group is as it was but for
/// references to the merged groups, which now name `t`.
pub open spec fn placed(before: Seq<Group>, after: Seq<Group>, t: u32, nb: Block, m: Set<u32>) -> bool {
    &&& !m.contains(t)
    &&& live(after, t)
    &&& forall|id: u32| live(after, id) <==> (live(before, id) && !m.contains(id))
    &&& forall|id: u32|
        live(after, id) && id != t ==> {
            let a = group_with(before, id);
            let z = #[trigger] group_with(after, id);
            &&& z.blocks@ == a.blocks@
            &&& z.direction == a.direction
            &&& z.start_block_id == a.start_block_id
            &&& z.end_block_id == a.end_block_id
            &&& z.connections@ == remap_all_into(a.connections@, m, t)
        }
    &&& forall|b: Block|
        group_with(after, t).blocks@.contains(b) <==> (group_with(before, t).blocks@.contains(b)
            || b == nb || exists|x: u32| m.contains(x) && group_with(before, x).blocks@.contains(b))
}

proof fn lemma_placed_step(
    og: Seq<Group>,
    cur: Seq<Group>,
    after: Seq<Group>,
    t: u32,
    nb: Block,
    m: Set<u32>,
    other: u32,
)
    requires
        placed(og, cur, t, nb, m),
        merged(cur, after, other, t),
        other != t,
        live(cur, other),
    ensures
        placed(og, after, t, nb, m.insert(other)),
{
    let m2 = m.insert(other);
    assert forall|id: u32| live(after, id) && id != t implies {
        let a = group_with(og, id);
        let z = #[trigger] group_with(after, id);
        &&& z.blocks@ == a.blocks@
        &&& z.direction == a.direction
        &&& z.start_block_id == a.start_block_id
        &&& z.end_block_id == a.end_block_id
        &&& z.connections@ == remap_all_into(a.connections@, m2, t)
    } by {
        assert(live(cur, id));
        let y = group_with(cur, id);
        let z = group_with(after, id);
        assert(same_but_remapped(y, z, other, t));
        let a = group_with(og, id);
        assert(y.connections@ == remap_all_into(a.connections@, m, t));
        assert(z.connections@ =~= remap_all_into(a.connections@, m2, t));
    }
    let ot = group_with(og, t);
    let ct = group_with(cur, t);
    let at = group_with(after, t);
    let co = group_with(cur, other);
    let sm = ct.blocks@ + co.blocks@;
    assert(live(cur, other) && other != t);
    assert(co.blocks@ == group_with(og, other).blocks@);
    assert forall|b: Block| at.blocks@.contains(b) <==> (ot.blocks@.contains(b) || b == nb || exists|x: u32|
        m2.contains(x) && group_with(og, x).blocks@.contains(b)) by {
        if at.blocks@.contains(b) {
            lemma_member_moves(at.blocks@, sm, b);
            let w = choose|w: int| 0 <= w < sm.len() && sm[w] == b;
            if w < ct.blocks@.len() {
                assert(ct.blocks@[w] == b);
                assert(ct.blocks@.contains(b));
                if !(ot.blocks@.contains(b) || b == nb) {
                    let x = choose|x: u32| m.contains(x) && group_with(og, x).blocks@.contains(b);
                    assert(m2.contains(x));
                }
            } else {
                assert(co.blocks@[w - ct.blocks@.len()] == b);
                assert(m2.contains(other) && group_with(og, other).blocks@.contains(b));
            }
        }
        if ot.blocks@.contains(b) || b == nb || exists|x: u32| m2.contains(x) && group_with(og, x).blocks@.contains(b) {
            let in_cur_t = ot.blocks@.contains(b) || b == nb || exists|x: u32| m.contains(x) && group_with(og, x).blocks@.contains(b);
            if in_cur_t {
                assert(ct.blocks@.contains(b));
                let w = choose|w: int| 0 <= w < ct.blocks@.len() && ct.blocks@[w] == b;
                assert(sm[w] == b);
                lemma_member_moves(sm, at.blocks@, b);
            } else {
                let x = choose|x: u32| m2.contains(x) && group_with(og, x).blocks@.contains(b);
                assert(x == other);
                assert(co.blocks@.contains(b));
                let w = choose|w: int| 0 <= w < co.blocks@.len() && co.blocks@[w] == b;
                assert(sm[ct.blocks@.len() + w] == b);
                lemma_member_moves(sm, at.blocks@, b);
            }
        }
    }
}

/// A new singleton group on a free cell, with fresh ids, keeps the
/// invariant.
proof fn lemma_new_group(og: Seq<Group>, ng: Seq<Group>, nb: Block, gid: u32)
    requires
        layout_wf(og, nb.id, gid),
        nb.id < u32::MAX,
        gid < u32::MAX,
        ng.len() == og.len() + 1,
        forall|i: int| 0 <= i < og.len() ==> ng[i] == og[i],
        singleton(ng[og.len() as int], nb.id, gid, nb.grid_pos),
        !occupied(og, nb.grid_pos),
    ensures
        layout_wf(ng, (nb.id + 1) as u32, (gid + 1) as u32),
        live(ng, gid),
        group_with(ng, gid) == ng.last(),
        ng.last().blocks@.contains(nb),
{
        assert(ng.drop_last() =~= og);
        assert(ng[og.len() as int].blocks@ =~= seq![nb]);
        assert(ng[og.len() as int].blocks@[0] == nb);
        assert(ng[og.len() as int].wf());
        assert forall|i: int| 0 <= i < ng.len() implies (#[trigger] ng[i]).wf() by {
            if i < og.len() {
                assert(ng[i] == og[i]);
            }
        }
        assert forall|i: int| 0 <= i < og.len() implies (#[trigger] og[i]).id != gid by {}
        assert(unique_ids(ng));
        assert forall|id: u32| live(og, id) implies live(ng, id) by {
            let i = choose|i: int| 0 <= i < og.len() && og[i].id == id;
            assert(ng[i].id == id);
        }
        assert forall|i: int, c: int|
            0 <= i < ng.len() && 0 <= c < ng[i].connections@.len() implies live(
                ng,
                #[trigger] ng[i].connections@[c].from_group,
            ) && live(ng, ng[i].connections@[c].to_group) by {
            assert(i < og.len());
            assert(ng[i] == og[i]);
        }
        assert forall|i: int, k: int|
            0 <= i < ng.len() && 0 <= k < ng[i].blocks@.len() implies (
            #[trigger] ng[i].blocks@[k]).id < (nb.id + 1) as u32 by {
            if i < og.len() {
                assert(ng[i] == og[i]);
            }
        }
        assert(blocks_disjoint(ng)) by {
            assert forall|a: int, b: int, x: Block, y: Block|
                0 <= a < ng.len() && 0 <= b < ng.len() && a != b && #[trigger] ng[a].blocks@.contains(x)
                    && #[trigger] ng[b].blocks@.contains(y) implies x.id != y.id && x.grid_pos != y.grid_pos by {
                if a == og.len() {
                    assert(x == nb);
                    assert(ng[b] == og[b]);
                    let w = choose|w: int| 0 <= w < og[b].blocks@.len() && og[b].blocks@[w] == y;
                    assert(og[b].blocks@[w].id < nb.id);
                assert(block_at(og[b].blocks@, y.grid_pos));
                } else if b == og.len() {
                    assert(y == nb);
                    assert(ng[a] == og[a]);
                    let w = choose|w: int| 0 <= w < og[a].blocks@.len() && og[a].blocks@[w] == x;
                    assert(og[a].blocks@[w].id < nb.id);
                assert(block_at(og[a].blocks@, x.grid_pos));
                } else {
                    assert(ng[a] == og[a] && ng[b] == og[b]);
                }
            }
        }
        lemma_group_with(ng, og.len() as int);
        assert(ng.last().blocks@[0] == nb);
}

/// A block on a free cell joining group `target` at position `ti` keeps the
/// invariant, and leaves the other groups as they were.
proof fn lemma_appended(og: Seq<Group>, ng: Seq<Group>, ti: int, nb: Block, target: u32, ngid: u32)
    requires
        layout_wf(og, nb.id, ngid),
        nb.id < u32::MAX,
        0 <= ti < og.len(),
        og[ti].id == target,
        ng.len() == og.len(),
        forall|i: int| 0 <= i < ng.len() && i != ti ==> #[trigger] ng[i] == og[i],
        ng[ti].wf(),
        ng[ti].id == og[ti].id,
        ng[ti].connections@ == og[ti].connections@,
        ng[ti].blocks@.to_multiset() =~= og[ti].blocks@.push(nb).to_multiset(),
        !occupied(og, nb.grid_pos),
    ensures
        layout_wf(ng, (nb.id + 1) as u32, ngid),
        live(ng, target),
        group_with(ng, target) == ng[ti],
        ng[ti].blocks@.contains(nb),
        forall|b: Block| og[ti].blocks@.contains(b) ==> ng[ti].blocks@.contains(b),
        placed(og, ng, target, nb, Set::<u32>::empty()),
        og[ti].direction is Some ==> og[ti].blocks@.len() >= 2,
{
        let s = og[ti as int].blocks@.push(nb);
        assert(s.contains(nb)) by {
            assert(s[s.len() - 1] == nb);
        }
        lemma_member_moves(s, ng[ti as int].blocks@, nb);
        assert forall|i: int| 0 <= i < ng.len() && i != ti implies #[trigger] ng[i] == og[i] by {}
        assert(unique_ids(ng)) by {
            assert forall|a: int, b: int| 0 <= a < ng.len() && 0 <= b < ng.len() && a != b implies ng[a].id
                != ng[b].id by {
                assert(ng[a].id == og[a].id);
                assert(ng[b].id == og[b].id);
            }
        }
        assert forall|id: u32| live(og, id) <==> live(ng, id) by {
            if live(og, id) {
                let i = choose|i: int| 0 <= i < og.len() && og[i].id == id;
                assert(ng[i].id == id);
            }
            if live(ng, id) {
                let i = choose|i: int| 0 <= i < ng.len() && ng[i].id == id;
                assert(og[i].id == id);
            }
        }
        assert forall|i: int| 0 <= i < ng.len() implies (#[trigger] ng[i]).wf() by {
            if i != ti {
                assert(og[i].wf());
            }
        }
        assert forall|i: int| 0 <= i < ng.len() implies (#[trigger] ng[i]).id < ngid by {
            assert(og[i].id == ng[i].id);
        }
        assert forall|i: int, c: int|
            0 <= i < ng.len() && 0 <= c < ng[i].connections@.len() implies live(
                ng,
                #[trigger] ng[i].connections@[c].from_group,
            ) && live(ng, ng[i].connections@[c].to_group) by {
            assert(ng[i].connections@ == og[i].connections@);
            let x = og[i].connections@[c];
            assert(x == ng[i].connections@[c]);
            assert(live(og, x.from_group) && live(og, x.to_group));
            let p = choose|p: int| 0 <= p < og.len() && og[p].id == x.from_group;
            let q = choose|q: int| 0 <= q < og.len() && og[q].id == x.to_group;
            assert(ng[p].id == og[p].id);
            assert(ng[q].id == og[q].id);
        }
        assert forall|i: int, k: int|
            0 <= i < ng.len() && 0 <= k < ng[i].blocks@.len() implies (
            #[trigger] ng[i].blocks@[k]).id < (nb.id + 1) as u32 by {
            if i != ti {
                assert(ng[i].blocks@[k] == og[i].blocks@[k]);
            } else {
                lemma_member_moves(ng[i].blocks@, s, ng[i].blocks@[k]);
                let w = choose|w: int| 0 <= w < s.len() && s[w] == ng[i].blocks@[k];
                if w < og[i].blocks@.len() {
                    assert(og[i].blocks@[w] == s[w]);
                }
            }
        }
        lemma_group_with(ng, ti as int);
        assert(blocks_disjoint(ng)) by {
            assert forall|a: int, b: int, x: Block, y: Block|
                0 <= a < ng.len() && 0 <= b < ng.len() && a != b && #[trigger] ng[a].blocks@.contains(x)
                    && #[trigger] ng[b].blocks@.contains(y) implies x.id != y.id && x.grid_pos != y.grid_pos by {
                if a == ti {
                    lemma_member_moves(ng[a].blocks@, s, x);
                    assert(ng[b] == og[b]);
                    if x != nb {
                        let w = choose|w: int| 0 <= w < s.len() && s[w] == x;
                        assert(og[a].blocks@[w] == x);
                        assert(og[a].blocks@.contains(x));
                    } else {
                        let w = choose|w: int| 0 <= w < og[b].blocks@.len() && og[b].blocks@[w] == y;
                        assert(og[b].blocks@[w].id < nb.id);
                        assert(block_at(og[b].blocks@, y.grid_pos));
                assert(block_at(og[b].blocks@, y.grid_pos));
                    }
                } else if b == ti {
                    lemma_member_moves(ng[b].blocks@, s, y);
                    assert(ng[a] == og[a]);
                    if y != nb {
                        let w = choose|w: int| 0 <= w < s.len() && s[w] == y;
                        assert(og[b].blocks@[w] == y);
                        assert(og[b].blocks@.contains(y));
                    } else {
                        let w = choose|w: int| 0 <= w < og[a].blocks@.len() && og[a].blocks@[w] == x;
                        assert(og[a].blocks@[w].id < nb.id);
                        assert(block_at(og[a].blocks@, x.grid_pos));
                assert(block_at(og[a].blocks@, x.grid_pos));
                    }
                } else {
                    assert(ng[a] == og[a] && ng[b] == og[b]);
                }
            }
        }
        assert forall|b: Block| og[ti as int].blocks@.contains(b) implies ng[ti as int].blocks@.contains(b) by {
            let w = choose|w: int| 0 <= w < og[ti as int].blocks@.len() && og[ti as int].blocks@[w] == b;
            assert(s[w] == b);
            lemma_member_moves(s, ng[ti as int].blocks@, b);
        }
        if og[ti as int].direction is Some {
            assert(og[ti as int].blocks@.len() >= 2);
        }
        let e = Set::<u32>::empty();
        assert forall|id: u32| live(ng, id) && id != target implies {
            let a = group_with(og, id);
            let z = #[trigger] group_with(ng, id);
            &&& z.blocks@ == a.blocks@
            &&& z.direction == a.direction
            &&& z.start_block_id == a.start_block_id
            &&& z.end_block_id == a.end_block_id
            &&& z.connections@ == remap_all_into(a.connections@, e, target)
        } by {
            let j = choose|j: int| 0 <= j < ng.len() && ng[j].id == id;
            lemma_group_with(ng, j);
            assert(j != ti);
            assert(ng[j] == og[j]);
            lemma_group_with(og, j);
            assert(remap_all_into(og[j].connections@, e, target) =~= og[j].connections@);
        }
        assert forall|b: Block| ng[ti as int].blocks@.contains(b) <==> (og[ti as int].blocks@.contains(b)
            || b == nb || exists|x: u32| e.contains(x) && group_with(og, x).blocks@.contains(b)) by {
            if ng[ti as int].blocks@.contains(b) {
                lemma_member_moves(ng[ti as int].blocks@, s, b);
                let w = choose|w: int| 0 <= w < s.len() && s[w] == b;
                if w < og[ti as int].blocks@.len() {
                    assert(og[ti as int].blocks@[w] == b);
                }
            }
            if og[ti as int].blocks@.contains(b) {
                let w = choose|w: int| 0 <= w < og[ti as int].blocks@.len() && og[ti as int].blocks@[w] == b;
                assert(s[w] == b);
                lemma_member_moves(s, ng[ti as int].blocks@, b);
            }
            if b == nb {
                assert(s[s.len() - 1] == b);
                lemma_member_moves(s, ng[ti as int].blocks@, b);
            }
        }
        assert(placed(og, ng, target, nb, e));
}

proof fn lemma_append_straight(g: Group, pos: (i32, i32), b: Block)
    requires
        g.wf(),
        touches(g, pos),
        compatible(g, pos),
        !block_at(g.blocks@, pos),
        b.grid_pos == pos,
    ensures
        straight(g.blocks@.push(b)),
        inferred_direction(g.blocks@.push(b)) matches Some(d) ==> collinear_along(
            g.blocks@.push(b),
            d,
        ),
        g.blocks@.len() >= 2 ==> inferred_direction(g.blocks@.push(b)) == g.direction,
{
    let s = g.blocks@;
    let t = s.push(b);
    assert forall|i: int, j: int|
        0 <= i < t.len() && 0 <= j < t.len() && i != j implies t[i].grid_pos != t[j].grid_pos by {
        if i < s.len() && j < s.len() {
        } else if i < s.len() {
            assert(t[i] == s[i]);
        } else {
            assert(t[j] == s[j]);
        }
    }
    let k = choose|k: int| 0 <= k < 4 && #[trigger] has_cell(s, step(pos, k));
    let w = choose|w: int|
        0 <= w < s.len() && s[w].grid_pos.0 == step(pos, k).0 && s[w].grid_pos.1 == step(pos, k).1;
    if s.len() == 1 {
        assert(t[0] == s[0]);
        if k == 0 || k == 2 {
            assert(collinear_along(t, Direction::Vertical));
        } else {
            assert(collinear_along(t, Direction::Horizontal));
        }
    } else {
        let d = g.direction.unwrap();
        assert(collinear_along(t, d)) by {
            assert forall|i: int, j: int| 0 <= i < t.len() && 0 <= j < t.len() implies cross_key(
                t[i],
                d,
            ) == cross_key(t[j], d) by {
                assert(cross_key(s[s.len() - 1], d) == cross_key(b, d));
                if i < s.len() {
                    assert(t[i] == s[i]);
                }
                if j < s.len() {
                    assert(t[j] == s[j]);
                }
            }
        }
        assert(t[0] == s[0] && t[1] == s[1]);
    }
    if t.len() >= 2 {
        if collinear_along(t, Direction::Horizontal) {
            lemma_straight_direction(t, Direction::Horizontal);
        } else {
            lemma_straight_direction(t, Direction::Vertical);
        }
    }
}

impl RailwayEditor {
    /// Places a block at `grid_pos`. On an occupied cell nothing happens
    /// (`Ok(None)`). With no group next to it, the block starts a new group.
    /// Otherwise it joins the first neighbouring group that can take it along
    /// its direction, and the other neighbouring groups are merged into that
    /// one; a merge that would not give a straight run is left out and
    /// reported in the message. Ids are taken only when a block is placed.
    /// Returns the new block's id and the id of its group.
    #[verifier::rlimit(40)]
    pub fn place_block(&mut self, grid_pos: (i32, i32)) -> (r: Result<Option<(u32, u32)>, EditError>)
        requires
            old(self).wf(),
        ensures
            final(self).wf(),
            final(self).selected_blocks == old(self).selected_blocks,
            final(self).app_mode == old(self).app_mode,
            final(self).show_connection_panel == old(self).show_connection_panel,
            occupied(old(self).groups@, grid_pos) <==> r == Ok::<Option<(u32, u32)>, EditError>(None),
            r == Err::<Option<(u32, u32)>, EditError>(EditError::IdsExhausted) <==> (!occupied(
                old(self).groups@,
                grid_pos,
            ) && (old(self).next_block_id == u32::MAX || (!has_neighbor(old(self).groups@, grid_pos)
                && old(self).next_group_id == u32::MAX))),
            r == Err::<Option<(u32, u32)>, EditError>(EditError::NotCompatible) <==> (!occupied(
                old(self).groups@,
                grid_pos,
            ) && old(self).next_block_id < u32::MAX && has_neighbor(old(self).groups@, grid_pos)
                && !accepts(old(self).groups@, grid_pos)),
            r is Err || r == Ok::<Option<(u32, u32)>, EditError>(None) ==> final(self).groups@ == old(
                self,
            ).groups@ && final(self).next_block_id == old(self).next_block_id
                && final(self).next_group_id == old(self).next_group_id && final(self).message
                == old(self).message && final(self).show_message_box == old(self).show_message_box,
            r matches Ok(Some((b, g))) ==> {
                &&& b == old(self).next_block_id
                &&& final(self).next_block_id == old(self).next_block_id + 1
                &&& live(final(self).groups@, g)
                &&& group_with(final(self).groups@, g).blocks@.contains(
                    Block { id: b, grid_pos: grid_pos },
                )
                &&& !has_neighbor(old(self).groups@, grid_pos) ==> {
                    &&& g == old(self).next_group_id
                    &&& final(self).next_group_id == old(self).next_group_id + 1
                    &&& final(self).groups@.len() == old(self).groups@.len() + 1
                    &&& final(self).groups@.drop_last() == old(self).groups@
                    &&& singleton(final(self).groups@.last(), b, g, grid_pos)
                }
                &&& has_neighbor(old(self).groups@, grid_pos) ==> {
                    &&& final(self).next_group_id == old(self).next_group_id
                    &&& live(old(self).groups@, g)
                    &&& touches(group_with(old(self).groups@, g), grid_pos)
                    &&& compatible(group_with(old(self).groups@, g), grid_pos)
                    &&& exists|ms: Set<u32>| {
                        &&& placed(
                            old(self).groups@,
                            final(self).groups@,
                            g,
                            Block { id: b, grid_pos: grid_pos },
                            ms,
                        )
                        &&& forall|x: u32| #[trigger] ms.contains(x) ==> neighbor_order(
                            old(self).groups@,
                            grid_pos,
                        ).contains(x)
                        &&& forall|x: u32|
                            neighbor_order(old(self).groups@, grid_pos).contains(x) && x != g
                                && !(#[trigger] ms.contains(x)) ==> final(self).show_message_box
                                && final(self).message@ == "Cannot merge groups that are not in line"@
                        &&& (forall|x: u32|
                            neighbor_order(old(self).groups@, grid_pos).contains(x) && x != g
                                ==> #[trigger] ms.contains(x)) ==> final(self).message == old(
                            self,
                        ).message && final(self).show_message_box == old(self).show_message_box
                        &&& ms =~= Set::<u32>::empty() ==> final(self).groups@.len() == old(
                            self,
                        ).groups@.len()
                        &&& ms =~= Set::<u32>::empty() ==> group_with(final(self).groups@, g).blocks@.to_multiset()
                            =~= group_with(old(self).groups@, g).blocks@.push(
                            Block { id: b, grid_pos: grid_pos },
                        ).to_multiset()
                    }
                    &&& exists|x: int|
                        0 <= x < neighbor_order(old(self).groups@, grid_pos).len()
                            && neighbor_order(old(self).groups@, grid_pos)[x] == g
                            && forall|y: int|
                            0 <= y < x ==> !compatible(
                                group_with(
                                    old(self).groups@,
                                    #[trigger] neighbor_order(old(self).groups@, grid_pos)[y],
                                ),
                                grid_pos,
                            )
                    &&& group_with(old(self).groups@, g).direction is Some ==> group_with(
                        final(self).groups@,
                        g,
                    ).direction == group_with(old(self).groups@, g).direction
                }
            },
            !occupied(old(self).groups@, grid_pos) && old(self).next_block_id < u32::MAX && (
            !has_neighbor(old(self).groups@, grid_pos) && old(self).next_group_id < u32::MAX
                || accepts(old(self).groups@, grid_pos)) ==> r is Ok && r != Ok::<
                Option<(u32, u32)>,
                EditError,
            >(None),
    {
        if self.is_occupied(grid_pos) {
            return Ok(None);
        }
        if self.next_block_id == u32::MAX {
            return Err(EditError::IdsExhausted);
        }
        let ghost og = self.groups@;
        let nb = Block { id: self.next_block_id, grid_pos };
        let neighbors = self.find_neighboring_groups(grid_pos);
        if neighbors.len() == 0 {
            proof {
                if has_neighbor(og, grid_pos) {
                    let i = choose|i: int| 0 <= i < og.len() && touches(#[trigger] og[i], grid_pos);
                    assert(neighbors@.contains(og[i].id));
                }
            }
            if self.next_group_id == u32::MAX {
                return Err(EditError::IdsExhausted);
            }
            let gid = self.next_group_id;
            let g = Group {
                id: gid,
                blocks: vec![nb],
                connections: Vec::new(),
                direction: None,
                start_block_id: Some(nb.id),
                end_block_id: Some(nb.id),
            };
            self.groups.push(g);
            self.next_block_id = self.next_block_id + 1;
            self.next_group_id = self.next_group_id + 1;
            proof {
                assert(self.groups@[og.len() as int].blocks@ =~= seq![nb]);
                assert(self.groups@[og.len() as int].connections@ =~= Seq::<Connection>::empty());
                lemma_new_group(og, self.groups@, nb, gid);
                assert(self.groups@.drop_last() =~= og);
                assert(self.groups@.last() == self.groups@[og.len() as int]);
            }
            return Ok(Some((nb.id, gid)));
        }
        let mut found: Option<u32> = None;
        let mut k: usize = 0;
        while k < neighbors.len() && found.is_none()
            invariant
                self.wf(),
                self.groups@ == og,
                k <= neighbors@.len(),
                forall|j: int, i: int|
                    #![trigger neighbors@[j], og[i]]
                    0 <= j < k && 0 <= i < og.len() && og[i].id == neighbors@[j] ==> !compatible(
                        og[i],
                        grid_pos,
                    ),
                found matches Some(t) ==> k < neighbors@.len() && neighbors@[k as int] == t,
                found matches Some(t) ==> neighbors@.contains(t) && exists|i: int|
                    0 <= i < og.len() && og[i].id == t && compatible(#[trigger] og[i], grid_pos),
            decreases neighbors@.len() - k + (if found is None { 1int } else { 0int }),
        {
            if self.can_add_to_group(neighbors[k], grid_pos) {
                found = Some(neighbors[k]);
            } else {
                k = k + 1;
            }
        }
        let target = match found {
            None => {
                proof {
                    assert(neighbors@.contains(neighbors@[0]));
                    assert(has_neighbor(og, grid_pos));
                    if accepts(og, grid_pos) {
                        let i = choose|i: int|
                            0 <= i < og.len() && touches(#[trigger] og[i], grid_pos) && compatible(
                                og[i],
                                grid_pos,
                            );
                        assert(neighbors@.contains(og[i].id));
                        let j = choose|j: int| 0 <= j < neighbors@.len() && neighbors@[j] == og[i].id;
                        assert(!compatible(og[i], grid_pos));
                    }
                }
                return Err(EditError::NotCompatible);
            },
            Some(t) => t,
        };
        let ti = match self.group_index(target) {
            Some(i) => i,
            None => {
                return Err(EditError::UnknownGroup);
            },
        };
        proof {
            lemma_group_with(og, ti as int);
            assert forall|y: int| 0 <= y < k implies !compatible(
                group_with(og, #[trigger] neighbors@[y]),
                grid_pos,
            ) by {
                assert(neighbors@.contains(neighbors@[y]));
                let q = choose|q: int| 0 <= q < og.len() && og[q].id == neighbors@[y] && touches(#[trigger] og[q], grid_pos);
                lemma_group_with(og, q);
            }
            let i = choose|i: int| 0 <= i < og.len() && og[i].id == target && compatible(#[trigger] og[i], grid_pos);
            lemma_group_with(og, i);
            let i2 = choose|i2: int| 0 <= i2 < og.len() && og[i2].id == target && touches(#[trigger] og[i2], grid_pos);
            lemma_group_with(og, i2);
            assert(og[ti as int].wf());
            assert(!block_at(og[ti as int].blocks@, grid_pos));
            lemma_append_straight(og[ti as int], grid_pos, nb);
            assert forall|x: Block, y: Block| og[ti as int].blocks@.contains(x) && seq![nb].contains(y) implies x.id != y.id by {
                let w = choose|w: int| 0 <= w < og[ti as int].blocks@.len() && og[ti as int].blocks@[w] == x;
                assert(og[ti as int].blocks@[w].id < nb.id);
                assert(y == seq![nb][0]);
            }
            assert(distinct_ids(seq![nb]));
            lemma_concat_distinct_ids(og[ti as int].blocks@, seq![nb]);
            assert(og[ti as int].blocks@ + seq![nb] =~= og[ti as int].blocks@.push(nb));
        }
        self.groups[ti].blocks.push(nb);
        proof {
            assert(self.groups@[ti as int].blocks@ == og[ti as int].blocks@.push(nb));
        }
        self.groups[ti].settle();
        self.next_block_id = self.next_block_id + 1;
        proof {
            let ng = self.groups@;
            assert forall|i: int| 0 <= i < ng.len() && i != ti implies #[trigger] ng[i] == og[i] by {}
            lemma_appended(og, ng, ti as int, nb, target, self.next_group_id);
        }
        let ghost mut ms: Set<u32> = Set::empty();
        let ghost tg = og[ti as int];
        let mut m: usize = 0;
        while m < neighbors.len()
            invariant
                self.wf(),
                live(self.groups@, target),
                group_with(self.groups@, target).blocks@.contains(nb),
                tg.direction is Some ==> group_with(self.groups@, target).direction == tg.direction,
                tg.wf(),
                tg.direction is Some ==> forall|b: Block|
                    tg.blocks@.contains(b) ==> group_with(self.groups@, target).blocks@.contains(b),
                self.next_block_id == old(self).next_block_id + 1,
                self.next_group_id == old(self).next_group_id,
                self.selected_blocks == old(self).selected_blocks,
                self.app_mode == old(self).app_mode,
                self.show_connection_panel == old(self).show_connection_panel,
                m <= neighbors@.len(),
                neighbors@ == neighbor_order(og, grid_pos),
                neighbors@.no_duplicates(),
                live(og, target),
                placed(og, self.groups@, target, nb, ms),
                forall|x: u32| #[trigger] ms.contains(x) ==> exists|j: int| 0 <= j < m && neighbors@[j] == x,
                forall|j: int|
                    0 <= j < m && #[trigger] neighbors@[j] != target && !ms.contains(neighbors@[j])
                        ==> self.show_message_box && self.message@ == "Cannot merge groups that are not in line"@,
                (forall|j: int| 0 <= j < m ==> #[trigger] neighbors@[j] == target || ms.contains(neighbors@[j]))
                    ==> self.message == old(self).message && self.show_message_box == old(self).show_message_box,
                ms =~= Set::<u32>::empty() ==> self.groups@.len() == og.len(),
                ms =~= Set::<u32>::empty() ==> group_with(self.groups@, target).blocks@.to_multiset()
                    =~= og[ti as int].blocks@.push(nb).to_multiset(),
                ti < og.len(),
                og[ti as int].id == target,
            decreases neighbors.len() - m,
        {
            let other = neighbors[m];
            if other != target {
                let ghost before = self.groups@;
                let res = self.merge_groups(other, target);
                if res.is_err() {
                    self.message = String::from_str("Cannot merge groups that are not in line");
                    self.show_message_box = true;
                } else {
                    proof {
                        lemma_placed_step(og, before, self.groups@, target, nb, ms, other);
                        ms = ms.insert(other);
                        assert(neighbors@[m as int] == other);
                        let a = group_with(before, target);
                        let z = group_with(self.groups@, target);
                        let s = a.blocks@ + group_with(before, other).blocks@;
                        assert(live(before, other));
                        assert forall|b: Block| a.blocks@.contains(b) implies z.blocks@.contains(b) by {
                            let w = choose|w: int| 0 <= w < a.blocks@.len() && a.blocks@[w] == b;
                            assert(s[w] == b);
                            lemma_member_moves(s, z.blocks@, b);
                        }
                        let zi = index_of_group(self.groups@, target);
                        assert(self.groups@[zi].wf());
                        if tg.direction is Some {
                            let d = tg.direction.unwrap();
                            assert(z.blocks@.len() >= 2) by {
                                assert(tg.blocks@.len() >= 2);
                                assert(tg.blocks@.contains(tg.blocks@[0]));
                                assert(tg.blocks@.contains(tg.blocks@[1]));
                                assert(z.blocks@.contains(tg.blocks@[0]));
                                assert(z.blocks@.contains(tg.blocks@[1]));
                                assert(tg.blocks@[0].grid_pos != tg.blocks@[1].grid_pos);
                            }
                            lemma_direction_kept(tg.blocks@, z.blocks@, d, z.direction.unwrap());
                        }
                    }
                }
            }
            m = m + 1;
        }
        Ok(Some((nb.id, target)))
    }
}

/// The blocks of `s` whose ids are not in `sel`, in their order.
fn unselected_blocks(s: &Vec<Block>, sel: &IndexSet<u32>) -> (r: Vec<Block>)
    ensures
        forall|b: Block| r@.contains(b) <==> (s@.contains(b) && !selection_of(*sel).contains(b.id)),
        distinct_cells(s@) ==> distinct_cells(r@),
        distinct_ids(s@) ==> distinct_ids(r@),
        forall|d: Direction| collinear_along(s@, d) ==> collinear_along(r@, d),
        r@.len() <= s@.len(),
        r@.len() >= 2 ==> s@.len() >= 2,
{
    let mut r: Vec<Block> = Vec::new();
    let ghost mut idx: Seq<int> = Seq::empty();
    let mut k: usize = 0;
    while k < s.len()
        invariant
            k <= s@.len(),
            idx.len() == r@.len(),
            r@.len() <= k,
            forall|a: int| 0 <= a < idx.len() ==> 0 <= #[trigger] idx[a] < k && r@[a] == s@[idx[a]],
            forall|a: int, b: int| 0 <= a < b < idx.len() ==> idx[a] < idx[b],
            forall|b: Block| r@.contains(b) <==> (exists|j: int| 0 <= j < k && s@[j] == b) && !selection_of(*sel).contains(b.id),
        decreases s.len() - k,
    {
        let b = s[k];
        let ghost rb = r@;
        let ghost ib = idx;
        if !sel_contains(sel, b.id) {
            r.push(b);
            proof {
                idx = idx.push(k as int);
            }
        }
        proof {
            assert forall|bb: Block| r@.contains(bb) <==> (exists|j: int| 0 <= j < k + 1 && s@[j] == bb) && !selection_of(*sel).contains(bb.id) by {
                if r@.contains(bb) {
                    let w = choose|w: int| 0 <= w < r@.len() && r@[w] == bb;
                    if w < rb.len() {
                        assert(rb[w] == bb);
                        assert(rb.contains(bb));
                        let j = choose|j: int| 0 <= j < k && s@[j] == bb;
                    } else {
                        assert(s@[k as int] == bb);
                    }
                }
                if (exists|j: int| 0 <= j < k + 1 && s@[j] == bb) && !selection_of(*sel).contains(bb.id) {
                    let j = choose|j: int| 0 <= j < k + 1 && s@[j] == bb;
                    if j < k {
                        assert(rb.contains(bb));
                        let w = choose|w: int| 0 <= w < rb.len() && rb[w] == bb;
                        assert(r@[w] == bb);
                    } else {
                        assert(r@[r@.len() - 1] == bb);
                    }
                }
            }
        }
        k = k + 1;
    }
    proof {
        assert forall|b: Block| r@.contains(b) <==> (s@.contains(b) && !selection_of(*sel).contains(b.id)) by {
            if s@.contains(b) {
                let j = choose|j: int| 0 <= j < s@.len() && s@[j] == b;
            }
        }
        if distinct_cells(s@) {
            assert forall|a: int, b: int| 0 <= a < r@.len() && 0 <= b < r@.len() && a != b implies r@[a].grid_pos != r@[b].grid_pos by {
                assert(idx[a] != idx[b]);
            }
        }
        if distinct_ids(s@) {
            assert forall|a: int, b: int| 0 <= a < r@.len() && 0 <= b < r@.len() && a != b implies r@[a].id != r@[b].id by {
                assert(idx[a] != idx[b]);
            }
        }
        assert forall|d: Direction| collinear_along(s@, d) implies collinear_along(r@, d) by {
            assert forall|a: int, b: int| 0 <= a < r@.len() && 0 <= b < r@.len() implies cross_key(r@[a], d) == cross_key(r@[b], d) by {
                assert(r@[a] == s@[idx[a]]);
                assert(r@[b] == s@[idx[b]]);
            }
        }
        if r@.len() >= 2 {
            assert(idx[0] < idx[1]);
        }
    }
    r
}

/// The connections of `cs` whose two groups are present in `gs`.
pub open spec fn resolving(cs: Seq<Connection>, gs: Seq<Group>) -> Seq<Connection> {
    cs.filter(|c: Connection| live(gs, c.from_group) && live(gs, c.to_group))
}

/// Whether a group keeps any block once the blocks with ids in `sel` go.
pub open spec fn keeps(g: Group, sel: Seq<u32>) -> bool {
    exists|b: Block| g.blocks@.contains(b) && !sel.contains(b.id)
}

/// `after` is `before` once the blocks with ids in `sel` are deleted: a
/// group stays iff it keeps a block, with exactly its unselected blocks, and
/// with those of its connections whose groups both stay.
pub open spec fn removed(before: Seq<Group>, sel: Seq<u32>, after: Seq<Group>) -> bool {
    &&& forall|id: u32|
        live(after, id) <==> (live(before, id) && keeps(group_with(before, id), sel))
    &&& forall|id: u32|
        live(after, id) ==> {
            &&& forall|b: Block|
                group_with(after, id).blocks@.contains(b) <==> (group_with(
                    before,
                    id,
                ).blocks@.contains(b) && !sel.contains(b.id))
            &&& group_with(after, id).connections@ == resolving(
                group_with(before, id).connections@,
                after,
            )
        }
}

fn keep_resolving(cs: &Vec<Connection>, ids: &Vec<u32>, gs: Ghost<Seq<Group>>) -> (r: Vec<Connection>)
    requires
        forall|x: u32| ids@.contains(x) <==> live(gs@, x),
    ensures
        r@ == resolving(cs@, gs@),
{
    let mut r: Vec<Connection> = Vec::new();
    let mut k: usize = 0;
    while k < cs.len()
        invariant
            k <= cs@.len(),
            forall|x: u32| ids@.contains(x) <==> live(gs@, x),
            r@ == resolving(cs@.subrange(0, k as int), gs@),
        decreases cs.len() - k,
    {
        let c = cs[k];
        let keep = contains_id(ids, c.from_group) && contains_id(ids, c.to_group);
        if keep {
            r.push(c);
        }
        proof {
            reveal(Seq::filter);
            assert(cs@.subrange(0, k + 1).drop_last() =~= cs@.subrange(0, k as int));
            assert(cs@.subrange(0, k + 1).last() == c);
        }
        k = k + 1;
    }
    assert(cs@.subrange(0, k as int) =~= cs@);
    r
}

fn group_ids(gs: &Vec<Group>) -> (r: Vec<u32>)
    ensures
        forall|x: u32| r@.contains(x) <==> live(gs@, x),
{
    let mut r: Vec<u32> = Vec::new();
    let mut k: usize = 0;
    while k < gs.len()
        invariant
            k <= gs@.len(),
            r@.len() == k,
            forall|j: int| 0 <= j < k ==> r@[j] == gs@[j].id,
        decreases gs.len() - k,
    {
        r.push(gs[k].id);
        k = k + 1;
    }
    assert forall|x: u32| r@.contains(x) <==> live(gs@, x) by {
        if r@.contains(x) {
            let j = choose|j: int| 0 <= j < r@.len() && r@[j] == x;
        }
        if live(gs@, x) {
            let j = choose|j: int| 0 <= j < gs@.len() && gs@[j].id == x;
            assert(r@[j] == x);
        }
    }
    r
}

impl RailwayEditor {
    /// Deletes the selected blocks. Each group keeps its other blocks, with
    /// direction and endpoints recomputed; a group left empty is removed, and
    /// so is every connection that names a removed group. The selection is
    /// cleared.
    pub fn remove_selected_blocks(&mut self)
        requires
            old(self).wf(),
        ensures
            final(self).wf(),
            final(self).selection() == Seq::<u32>::empty(),
            final(self).next_block_id == old(self).next_block_id,
            final(self).next_group_id == old(self).next_group_id,
            final(self).app_mode == old(self).app_mode,
            final(self).message == old(self).message,
            final(self).show_message_box == old(self).show_message_box,
            final(self).show_connection_panel == old(self).show_connection_panel,
            removed(old(self).groups@, old(self).selection(), final(self).groups@),
    {
        let ghost og = self.groups@;
        let ghost sel = self.selection();
        let mut olds: Vec<Group> = Vec::new();
        std::mem::swap(&mut olds, &mut self.groups);
        let ghost mut src: Seq<int> = Seq::empty();
        let mut i: usize = 0;
        while i < olds.len()
            invariant
                olds@ == og,
                layout_wf(og, self.next_block_id, self.next_group_id),
                self.next_block_id == old(self).next_block_id,
                self.next_group_id == old(self).next_group_id,
                self.app_mode == old(self).app_mode,
                self.message == old(self).message,
                self.show_message_box == old(self).show_message_box,
                self.show_connection_panel == old(self).show_connection_panel,
                forall|j: int| 0 <= j < src.len() ==> 0 <= #[trigger] src[j] < i,
                sel == self.selection(),
                i <= og.len(),
                src.len() == self.groups@.len(),
                forall|a: int, b: int| 0 <= a < b < src.len() ==> src[a] < src[b],
                forall|j: int|
                    0 <= j < src.len() ==> {
                        let g = #[trigger] self.groups@[j];
                        let o = og[src[j]];
                        &&& 0 <= src[j] < i
                        &&& g.wf()
                        &&& g.id == o.id
                        &&& g.connections@ == o.connections@
                        &&& forall|b: Block| g.blocks@.contains(b) <==> (o.blocks@.contains(b) && !sel.contains(b.id))
                    },
                forall|a: int| 0 <= a < i ==> (keeps(#[trigger] og[a], sel) <==> exists|j: int| 0 <= j < src.len() && src[j] == a),
            decreases olds.len() - i,
        {
            let kept = unselected_blocks(&olds[i].blocks, &self.selected_blocks);
            let ghost o = og[i as int];
            proof {
                assert(o.wf());
            }
            if kept.len() > 0 {
                let mut conns: Vec<Connection> = Vec::new();
                extend_copy(&mut conns, &olds[i].connections);
                proof {
                    assert(conns@ =~= o.connections@);
                    if kept@.len() >= 2 {
                        let d = o.direction.unwrap();
                        assert(collinear_along(kept@, d));
                        if d == Direction::Horizontal {
                            assert(collinear_along(kept@, Direction::Horizontal));
                        } else {
                            assert(collinear_along(kept@, Direction::Vertical));
                        }
                    }
                }
                let mut g = Group {
                    id: olds[i].id,
                    blocks: kept,
                    connections: conns,
                    direction: None,
                    start_block_id: None,
                    end_block_id: None,
                };
                let ghost gb = g.blocks@;
                g.settle();
                proof {
                    assert forall|b: Block| g.blocks@.contains(b) <==> gb.contains(b) by {
                        if g.blocks@.contains(b) {
                            lemma_member_moves(g.blocks@, gb, b);
                        }
                        if gb.contains(b) {
                            lemma_member_moves(gb, g.blocks@, b);
                        }
                    }
                    assert(keeps(o, sel)) by {
                        assert(kept@.contains(kept@[0]));
                    }
                }
                let ghost before = self.groups@;
                let ghost gv = g;
                proof {
                    assert(forall|b: Block| gv.blocks@.contains(b) <==> (o.blocks@.contains(b) && !sel.contains(b.id)));
                    assert(gv.wf() && gv.id == o.id && gv.connections@ == o.connections@);
                }
                self.groups.push(g);
                proof {
                    assert(self.groups@[self.groups@.len() - 1] == gv);
                    let ghost sb = src;
                    src = src.push(i as int);
                    assert forall|a: int, b: int| 0 <= a < b < src.len() implies src[a] < src[b] by {
                        if b == src.len() - 1 {
                            assert(sb[a] < i);
                        } else {
                            assert(sb[a] < sb[b]);
                        }
                    }
                    assert forall|j: int| 0 <= j < src.len() - 1 implies #[trigger] self.groups@[j] == before[j] by {}
                    assert forall|a: int| 0 <= a < i + 1 implies (keeps(#[trigger] og[a], sel) <==> exists|j: int| 0 <= j < src.len() && src[j] == a) by {
                        if a < i {
                            if keeps(og[a], sel) {
                                let j = choose|j: int| 0 <= j < sb.len() && sb[j] == a;
                                assert(src[j] == a);
                            }
                            if exists|j: int| 0 <= j < src.len() && src[j] == a {
                                let j = choose|j: int| 0 <= j < src.len() && src[j] == a;
                                if j == src.len() - 1 {
                                    assert(src[j] == i);
                                }
                                assert(sb[j] == a);
                            }
                        } else {
                            assert(src[src.len() - 1] == a);
                        }
                    }
                }
            } else {
                proof {
                    assert(!keeps(o, sel)) by {
                        if keeps(o, sel) {
                            let b = choose|b: Block| o.blocks@.contains(b) && !sel.contains(b.id);
                            assert(kept@.contains(b));
                        }
                    }
                    assert forall|a: int| 0 <= a < i + 1 implies (keeps(#[trigger] og[a], sel) <==> exists|j: int| 0 <= j < src.len() && src[j] == a) by {
                        if a == i {
                            if exists|j: int| 0 <= j < src.len() && src[j] == a {
                                let j = choose|j: int| 0 <= j < src.len() && src[j] == a;
                                assert(src[j] < i);
                            }
                        }
                    }
                }
            }
            i = i + 1;
        }
        let ghost ng1 = self.groups@;
        proof {
            assert forall|a: int, b: int| 0 <= a < ng1.len() && 0 <= b < ng1.len() && a != b implies ng1[a].id != ng1[b].id by {
                if a < b {
                    assert(src[a] < src[b]);
                } else {
                    assert(src[b] < src[a]);
                }
            }
            assert forall|id: u32| live(ng1, id) <==> (live(og, id) && keeps(group_with(og, id), sel)) by {
                if live(ng1, id) {
                    let j = choose|j: int| 0 <= j < ng1.len() && ng1[j].id == id;
                    lemma_group_with(og, src[j]);
                    assert(keeps(og[src[j]], sel));
                }
                if live(og, id) && keeps(group_with(og, id), sel) {
                    let a = choose|a: int| 0 <= a < og.len() && og[a].id == id;
                    lemma_group_with(og, a);
                    let j = choose|j: int| 0 <= j < src.len() && src[j] == a;
                    assert(ng1[j].id == id);
                }
            }
        }
        let ids = group_ids(&self.groups);
        let mut j: usize = 0;
        while j < self.groups.len()
            invariant
                j <= self.groups@.len(),
                self.groups@.len() == ng1.len(),
                layout_wf(og, self.next_block_id, self.next_group_id),
                forall|q: int| 0 <= q < src.len() ==> 0 <= #[trigger] src[q] < og.len(),
                src.len() == ng1.len(),
                self.next_block_id == old(self).next_block_id,
                self.next_group_id == old(self).next_group_id,
                self.app_mode == old(self).app_mode,
                self.message == old(self).message,
                self.show_message_box == old(self).show_message_box,
                self.show_connection_panel == old(self).show_connection_panel,
                forall|x: u32| ids@.contains(x) <==> live(ng1, x),
                forall|q: int|
                    0 <= q < ng1.len() ==> {
                        let g = #[trigger] self.groups@[q];
                        &&& g.id == ng1[q].id
                        &&& g.blocks@ == ng1[q].blocks@
                        &&& g.direction == ng1[q].direction
                        &&& g.start_block_id == ng1[q].start_block_id
                        &&& g.end_block_id == ng1[q].end_block_id
                        &&& g.connections@ == if q < j {
                            resolving(ng1[q].connections@, ng1)
                        } else {
                            ng1[q].connections@
                        }
                    },
            decreases self.groups.len() - j,
        {
            let kept = keep_resolving(&self.groups[j].connections, &ids, Ghost(ng1));
            self.groups[j].connections = kept;
            j = j + 1;
        }
        sel_clear(&mut self.selected_blocks);
        proof {
            let ng = self.groups@;
            assert forall|x: u32| live(ng, x) <==> live(ng1, x) by {
                if live(ng, x) {
                    let q = choose|q: int| 0 <= q < ng.len() && ng[q].id == x;
                    assert(ng1[q].id == x);
                }
                if live(ng1, x) {
                    let q = choose|q: int| 0 <= q < ng1.len() && ng1[q].id == x;
                    assert(ng[q].id == x);
                }
            }
            assert forall|q: int| 0 <= q < ng.len() implies (#[trigger] ng[q]).wf() by {
                assert(ng1[q].wf());
            }
            assert(unique_ids(ng)) by {
                assert forall|a: int, b: int| 0 <= a < ng.len() && 0 <= b < ng.len() && a != b implies ng[a].id != ng[b].id by {
                    assert(ng[a].id == ng1[a].id);
                    assert(ng[b].id == ng1[b].id);
                }
            }
            assert forall|q: int| 0 <= q < ng.len() implies (#[trigger] ng[q]).id < self.next_group_id by {
                assert(ng[q].id == ng1[q].id);
                assert(0 <= src[q] < og.len());
                assert(og[src[q]].id == ng1[q].id);
                assert(og[src[q]].id < self.next_group_id);
            }
            assert forall|q: int, k: int| 0 <= q < ng.len() && 0 <= k < ng[q].blocks@.len() implies (#[trigger] ng[q].blocks@[k]).id < self.next_block_id by {
                let b = ng[q].blocks@[k];
                assert(ng1[q].blocks@.contains(b));
                assert(0 <= src[q] < og.len());
                let o = og[src[q]];
                assert(o.blocks@.contains(b));
                let w = choose|w: int| 0 <= w < o.blocks@.len() && o.blocks@[w] == b;
                assert(og[src[q]].blocks@[w].id < self.next_block_id);
            }
            assert(blocks_disjoint(ng)) by {
                assert forall|a: int, b: int| 0 <= a < src.len() && 0 <= b < src.len() && a != b implies src[a] != src[b] by {
                    if a < b {
                        assert(src[a] < src[b]);
                    } else {
                        assert(src[b] < src[a]);
                    }
                }
                assert forall|q: int, b: Block| 0 <= q < ng.len() && #[trigger] ng[q].blocks@.contains(b) implies og[src[q]].blocks@.contains(b) by {
                    assert(ng1[q].blocks@.contains(b));
                }
                lemma_disjoint_from_sources(og, ng, src);
            }
            assert(connections_resolve(ng)) by {
                assert forall|q: int, c: int| 0 <= q < ng.len() && 0 <= c < ng[q].connections@.len() implies live(ng, #[trigger] ng[q].connections@[c].from_group) && live(ng, ng[q].connections@[c].to_group) && known_ends(ng[q].connections@[c]) by {
                    let p = |cc: Connection| live(ng1, cc.from_group) && live(ng1, cc.to_group);
                    ng1[q].connections@.lemma_filter_pred(p, c);
                    let x = ng[q].connections@[c];
                    assert(ng1[q].connections@.filter(p).contains(x)) by {
                        assert(ng1[q].connections@.filter(p)[c] == x);
                    }
                    ng1[q].connections@.lemma_filter_contains_rev(p, x);
                    let w = choose|w: int| 0 <= w < ng1[q].connections@.len() && ng1[q].connections@[w] == x;
                    assert(0 <= src[q] < og.len());
                    assert(og[src[q]].connections@[w] == x);
                }
            }
            assert forall|id: u32| live(ng, id) implies {
                &&& forall|b: Block|
                    group_with(ng, id).blocks@.contains(b) <==> (group_with(og, id).blocks@.contains(b) && !sel.contains(b.id))
                &&& group_with(ng, id).connections@ == resolving(group_with(og, id).connections@, ng)
            } by {
                let q = choose|q: int| 0 <= q < ng.len() && ng[q].id == id;
                lemma_group_with(ng, q);
                lemma_group_with(og, src[q]);
                let p1 = |c: Connection| live(ng1, c.from_group) && live(ng1, c.to_group);
                let p2 = |c: Connection| live(ng, c.from_group) && live(ng, c.to_group);
                assert(p1 =~= p2);
                assert(resolving(ng1[q].connections@, ng1) == resolving(ng1[q].connections@, ng));
            }
        }
    }
}

/// Which endpoint of `g` block `id` is: the start is tested first.
pub open spec fn endpoint_type(g: Group, id: u32) -> Option<ConnectionType> {
    match (g.start_block_id, g.end_block_id) {
        (Some(s), Some(e)) => if id == s {
            Some(ConnectionType::Start)
        } else if id == e {
            Some(ConnectionType::End)
        } else {
            None
        },
        _ => None,
    }
}

/// The group and endpoint kind of block `id`, from the last group in the
/// list of which it is an endpoint.
pub open spec fn find_endpoint(gs: Seq<Group>, id: u32) -> Option<(u32, ConnectionType)>
    decreases gs.len(),
{
    if gs.len() == 0 {
        None
    } else {
        match endpoint_type(gs.last(), id) {
            Some(t) => Some((gs.last().id, t)),
            None => find_endpoint(gs.drop_last(), id),
        }
    }
}

/// The connection from the endpoint block `from` to the endpoint block `to`,
/// if both are endpoints.
pub open spec fn intended_connection(gs: Seq<Group>, from: u32, to: u32) -> Option<Connection> {
    match (find_endpoint(gs, from), find_endpoint(gs, to)) {
        (Some((fg, ft)), Some((tg, tt))) => Some(
            Connection {
                from_group: fg,
                to_group: tg,
                from_connection_type: ft,
                to_connection_type: tt,
            },
        ),
        _ => None,
    }
}

pub proof fn lemma_find_endpoint_live(gs: Seq<Group>, id: u32)
    ensures
        find_endpoint(gs, id) matches Some((g, t)) ==> live(gs, g) && t != ConnectionType::Unknown,
    decreases gs.len(),
{
    if gs.len() > 0 {
        lemma_find_endpoint_live(gs.drop_last(), id);
        if let Some((g, t)) = find_endpoint(gs.drop_last(), id) {
            if live(gs.drop_last(), g) {
                let i = choose|i: int| 0 <= i < gs.drop_last().len() && gs.drop_last()[i].id == g;
                assert(gs[i].id == g);
            }
        }
        assert(gs[gs.len() - 1] == gs.last());
    }
}

fn endpoint_type_exec(g: &Group, id: u32) -> (r: Option<ConnectionType>)
    ensures
        r == endpoint_type(*g, id),
{
    match (g.start_block_id, g.end_block_id) {
        (Some(s), Some(e)) => if id == s {
            Some(ConnectionType::Start)
        } else if id == e {
            Some(ConnectionType::End)
        } else {
            None
        },
        _ => None,
    }
}

fn locate_endpoint(gs: &Vec<Group>, id: u32) -> (r: Option<(u32, ConnectionType)>)
    ensures
        r == find_endpoint(gs@, id),
{
    let mut r: Option<(u32, ConnectionType)> = None;
    let mut i: usize = 0;
    while i < gs.len()
        invariant
            i <= gs@.len(),
            r == find_endpoint(gs@.subrange(0, i as int), id),
        decreases gs.len() - i,
    {
        match endpoint_type_exec(&gs[i], id) {
            Some(t) => {
                r = Some((gs[i].id, t));
            },
            None => {},
        }
        assert(gs@.subrange(0, i + 1).drop_last() =~= gs@.subrange(0, i as int));
        assert(gs@.subrange(0, i + 1).last() == gs@[i as int]);
        i = i + 1;
    }
    assert(gs@.subrange(0, i as int) =~= gs@);
    r
}

/// The source group of `c` already records `c`.
pub open spec fn is_duplicate(gs: Seq<Group>, c: Connection) -> bool {
    group_with(gs, c.from_group).connections@.contains(c)
}

/// `after` is `before` with `c` appended to the connections of its source
/// group, and nothing else changed.
pub open spec fn connected(before: Seq<Group>, after: Seq<Group>, c: Connection) -> bool {
    let k = index_of_group(before, c.from_group);
    &&& after.len() == before.len()
    &&& forall|j: int| 0 <= j < before.len() && j != k ==> #[trigger] after[j] == before[j]
    &&& after[k].connections@ == before[k].connections@.push(c)
    &&& after[k].id == before[k].id
    &&& after[k].blocks@ == before[k].blocks@
    &&& after[k].direction == before[k].direction
    &&& after[k].start_block_id == before[k].start_block_id
    &&& after[k].end_block_id == before[k].end_block_id
}

/// Recording a connection between two present groups keeps the invariant.
proof fn lemma_connected_wf(gs: Seq<Group>, ng: Seq<Group>, c: Connection, nb: u32, nn: u32, k: int)
    requires
        layout_wf(gs, nb, nn),
        0 <= k < gs.len(),
        gs[k].id == c.from_group,
        live(gs, c.from_group),
        live(gs, c.to_group),
        ng.len() == gs.len(),
        forall|j: int| 0 <= j < gs.len() && j != k ==> #[trigger] ng[j] == gs[j],
        ng[k].connections@ == gs[k].connections@.push(c),
        ng[k].id == gs[k].id,
        ng[k].blocks@ == gs[k].blocks@,
        ng[k].direction == gs[k].direction,
        ng[k].start_block_id == gs[k].start_block_id,
        ng[k].end_block_id == gs[k].end_block_id,
        known_ends(c),
    ensures
        layout_wf(ng, nb, nn),
        connected(gs, ng, c),
{
    lemma_group_with(gs, k);
    assert forall|x: u32| live(ng, x) <==> live(gs, x) by {
        if live(ng, x) {
            let j = choose|j: int| 0 <= j < ng.len() && ng[j].id == x;
            assert(gs[j].id == x);
        }
        if live(gs, x) {
            let j = choose|j: int| 0 <= j < gs.len() && gs[j].id == x;
            assert(ng[j].id == x);
        }
    }
    assert forall|j: int| 0 <= j < ng.len() implies (#[trigger] ng[j]).wf() by {
        assert(gs[j].wf());
    }
    assert(unique_ids(ng)) by {
        assert forall|a: int, b: int| 0 <= a < ng.len() && 0 <= b < ng.len() && a != b implies ng[a].id
            != ng[b].id by {
            assert(ng[a].id == gs[a].id);
            assert(ng[b].id == gs[b].id);
        }
    }
    assert forall|j: int| 0 <= j < ng.len() implies (#[trigger] ng[j]).id < nn by {
        assert(ng[j].id == gs[j].id);
    }
    assert forall|j: int, q: int| 0 <= j < ng.len() && 0 <= q < ng[j].blocks@.len() implies (
    #[trigger] ng[j].blocks@[q]).id < nb by {
        assert(ng[j].blocks@ == gs[j].blocks@);
        assert(gs[j].blocks@[q] == ng[j].blocks@[q]);
    }
    assert(blocks_disjoint(ng)) by {
        assert forall|a: int, b: int, x: Block, y: Block|
            0 <= a < ng.len() && 0 <= b < ng.len() && a != b && #[trigger] ng[a].blocks@.contains(x)
                && #[trigger] ng[b].blocks@.contains(y) implies x.id != y.id && x.grid_pos != y.grid_pos by {
            assert(ng[a].blocks@ == gs[a].blocks@);
            assert(ng[b].blocks@ == gs[b].blocks@);
        }
    }
    assert forall|j: int, q: int| 0 <= j < ng.len() && 0 <= q < ng[j].connections@.len() implies live(
        ng,
        #[trigger] ng[j].connections@[q].from_group,
    ) && live(ng, ng[j].connections@[q].to_group) && known_ends(ng[j].connections@[q]) by {
        if j != k || q < gs[k].connections@.len() {
            assert(ng[j].connections@[q] == gs[j].connections@[q]);
        } else {
            assert(ng[j].connections@[q] == c);
        }
    }
}

/// Whether `g` lets block `id` be selected in `mode`: in connection mode only
/// its endpoints can be.
pub open spec fn selectable_in(g: Group, id: u32, mode: AppMode) -> bool {
    mode == AppMode::Normal || match (g.start_block_id, g.end_block_id) {
        (Some(s), Some(e)) => id == s || id == e,
        _ => true,
    }
}

/// Some group holds block `id`.
pub open spec fn block_exists(gs: Seq<Group>, id: u32) -> bool {
    exists|i: int| 0 <= i < gs.len() && has_block_id(#[trigger] gs[i].blocks@, id)
}

/// Some group that holds block `id` lets it be selected in `mode`.
pub open spec fn selectable(gs: Seq<Group>, id: u32, mode: AppMode) -> bool {
    exists|i: int|
        0 <= i < gs.len() && has_block_id(#[trigger] gs[i].blocks@, id) && selectable_in(
            gs[i],
            id,
            mode,
        )
}

fn holds_block(s: &Vec<Block>, id: u32) -> (r: bool)
    ensures
        r == has_block_id(s@, id),
{
    let mut i: usize = 0;
    while i < s.len()
        invariant
            i <= s@.len(),
            forall|j: int| 0 <= j < i ==> s@[j].id != id,
        decreases s.len() - i,
    {
        if s[i].id == id {
            return true;
        }
        i = i + 1;
    }
    false
}

impl RailwayEditor {
    /// Selects block `block_id`. Without `additive` the selection becomes that
    /// block alone; with it, a selected block is deselected and another one
    /// added at the end. In connection mode only a group endpoint can be
    /// selected: any other block is refused with a message, and without
    /// `additive` the selection is then left empty.
    pub fn select_block(&mut self, block_id: u32, additive: bool) -> (r: Result<(), EditError>)
        ensures
            final(self).groups@ == old(self).groups@,
            final(self).next_block_id == old(self).next_block_id,
            final(self).next_group_id == old(self).next_group_id,
            final(self).app_mode == old(self).app_mode,
            final(self).show_connection_panel == old(self).show_connection_panel,
            !block_exists(old(self).groups@, block_id) ==> r == Err::<(), EditError>(
                EditError::UnknownBlock,
            ) && final(self).selection() == old(self).selection(),
            block_exists(old(self).groups@, block_id) ==> {
                let ok = selectable(old(self).groups@, block_id, old(self).app_mode);
                let was = old(self).selection().contains(block_id);
                &&& additive && was ==> r is Ok && final(self).selection() == old(
                    self,
                ).selection().filter(|x: u32| x != block_id)
                &&& additive && !was && ok ==> r is Ok && final(self).selection() == old(
                    self,
                ).selection().push(block_id)
                &&& !additive && ok ==> r is Ok && final(self).selection() == seq![block_id]
                &&& (additive && !was || !additive) && !ok ==> r == Err::<(), EditError>(
                    EditError::NotEndpoint,
                ) && final(self).show_message_box && final(self).message@
                    == "Cannot select the block"@ && final(self).selection() == if additive {
                    old(self).selection()
                } else {
                    Seq::<u32>::empty()
                }
            },
            r is Ok ==> final(self).message == old(self).message && final(self).show_message_box
                == old(self).show_message_box,
    {
        let conn_mode = match self.app_mode {
            AppMode::SetConnections => true,
            AppMode::Normal => false,
        };
        let mut exists = false;
        let mut allowed = false;
        let mut i: usize = 0;
        while i < self.groups.len()
            invariant
                i <= self.groups@.len(),
                conn_mode == (self.app_mode == AppMode::SetConnections),
                exists == exists|j: int| 0 <= j < i && has_block_id(#[trigger] self.groups@[j].blocks@, block_id),
                allowed == exists|j: int|
                    0 <= j < i && has_block_id(#[trigger] self.groups@[j].blocks@, block_id) && selectable_in(
                        self.groups@[j],
                        block_id,
                        self.app_mode,
                    ),
            decreases self.groups.len() - i,
        {
            let g = &self.groups[i];
            if holds_block(&g.blocks, block_id) {
                exists = true;
                let (s, e) = if conn_mode {
                    (g.start_block_id, g.end_block_id)
                } else {
                    (None, None)
                };
                let here = g.check_selected_blocks(block_id, s, e);
                if here {
                    allowed = true;
                }
            }
            i = i + 1;
        }
        if !exists {
            return Err(EditError::UnknownBlock);
        }
        if additive && sel_contains(&self.selected_blocks, block_id) {
            sel_shift_remove(&mut self.selected_blocks, block_id);
            return Ok(());
        }
        if !additive {
            sel_clear(&mut self.selected_blocks);
        }
        if allowed {
            sel_insert(&mut self.selected_blocks, block_id);
            Ok(())
        } else {
            self.message = String::from_str("Cannot select the block");
            self.show_message_box = true;
            Err(EditError::NotEndpoint)
        }
    }

    /// Once exactly two blocks are selected, records a connection from the
    /// endpoint selected first to the one selected second, on the first one's
    /// group, unless that group already has the same connection; either way
    /// the selection is cleared. With another number of blocks selected
    /// nothing happens (`Ok(None)`).
    pub fn connect_groups(&mut self) -> (r: Result<Option<Connection>, EditError>)
        requires
            old(self).wf(),
        ensures
            final(self).wf(),
            final(self).next_block_id == old(self).next_block_id,
            final(self).next_group_id == old(self).next_group_id,
            final(self).app_mode == old(self).app_mode,
            final(self).show_connection_panel == old(self).show_connection_panel,
            old(self).selection().len() != 2 ==> r == Ok::<Option<Connection>, EditError>(None)
                && final(self).groups@ == old(self).groups@ && final(self).selection() == old(
                self,
            ).selection(),
            r is Ok ==> final(self).message == old(self).message && final(self).show_message_box
                == old(self).show_message_box,
            old(self).selection().len() == 2 ==> {
                let gs = old(self).groups@;
                let want = intended_connection(gs, old(self).selection()[0], old(self).selection()[1]);
                &&& final(self).selection() == Seq::<u32>::empty()
                &&& want is None ==> r == Err::<Option<Connection>, EditError>(EditError::NotEndpoint)
                    && final(self).groups@ == gs
                &&& want matches Some(c) ==> {
                    &&& is_duplicate(gs, c) ==> r == Err::<Option<Connection>, EditError>(
                        EditError::DuplicateConnection,
                    ) && final(self).groups@ == gs && final(self).show_message_box
                        && final(self).message@ == "Given connection already exists"@
                    &&& !is_duplicate(gs, c) ==> r == Ok::<Option<Connection>, EditError>(Some(c))
                        && connected(gs, final(self).groups@, c)
                }
            },
    {
        if sel_len(&self.selected_blocks) != 2 {
            return Ok(None);
        }
        let from_element = sel_first(&self.selected_blocks).unwrap();
        let to_element = sel_last(&self.selected_blocks).unwrap();
        sel_clear(&mut self.selected_blocks);
        let ghost gs = self.groups@;
        let from = locate_endpoint(&self.groups, from_element);
        let to = locate_endpoint(&self.groups, to_element);
        let (fg, ft, tg, tt) = match (from, to) {
            (Some((fg, ft)), Some((tg, tt))) => (fg, ft, tg, tt),
            _ => {
                return Err(EditError::NotEndpoint);
            },
        };
        let connection = Connection {
            from_group: fg,
            to_group: tg,
            from_connection_type: ft,
            to_connection_type: tt,
        };
        proof {
            lemma_find_endpoint_live(gs, from_element);
            lemma_find_endpoint_live(gs, to_element);
        }
        let k = match self.group_index(fg) {
            Some(k) => k,
            None => {
                return Err(EditError::UnknownGroup);
            },
        };
        proof {
            lemma_group_with(gs, k as int);
        }
        let mut exists = false;
        let mut n: usize = 0;
        while n < self.groups[k].connections.len()
            invariant
                self.groups@ == gs,
                k < gs.len(),
                n <= gs[k as int].connections@.len(),
                exists == gs[k as int].connections@.subrange(0, n as int).contains(connection),
            decreases gs[k as int].connections@.len() - n,
        {
            let ex = self.groups[k].connections[n];
            if ex.from_group == connection.from_group && ex.to_group == connection.to_group
                && ex.from_connection_type == connection.from_connection_type
                && ex.to_connection_type == connection.to_connection_type {
                exists = true;
            }
            proof {
                let s0 = gs[k as int].connections@.subrange(0, n as int);
                let s1 = gs[k as int].connections@.subrange(0, n + 1);
                assert(s1 =~= s0.push(ex));
                if s1.contains(connection) && !s0.contains(connection) {
                    let w = choose|w: int| 0 <= w < s1.len() && s1[w] == connection;
                    if w < s0.len() {
                        assert(s0[w] == connection);
                    }
                }
                if s0.contains(connection) {
                    let w = choose|w: int| 0 <= w < s0.len() && s0[w] == connection;
                    assert(s1[w] == connection);
                }
                if exists && !s0.contains(connection) {
                    assert(s1[n as int] == connection);
                }
            }
            n = n + 1;
        }
        assert(gs[k as int].connections@.subrange(0, n as int) =~= gs[k as int].connections@);
        if exists {
            self.message = String::from_str("Given connection already exists");
            self.show_message_box = true;
            return Err(EditError::DuplicateConnection);
        }
        self.groups[k].connections.push(connection);
        proof {
            lemma_connected_wf(gs, self.groups@, connection, self.next_block_id, self.next_group_id, k as int);
        }
        Ok(Some(connection))
    }
}

/// The persisted part of the editor: groups, counters and mode. The
/// selection and the dialog state are not part of it.
pub struct Layout {
    pub groups: Vec<Group>,
    pub next_block_id: u32,
    pub next_group_id: u32,
    pub app_mode: AppMode,
}

/// Two groups hold the same values.
pub open spec fn same_group(a: Group, b: Group) -> bool {
    &&& a.id == b.id
    &&& a.blocks@ == b.blocks@
    &&& a.connections@ == b.connections@
    &&& a.direction == b.direction
    &&& a.start_block_id == b.start_block_id
    &&& a.end_block_id == b.end_block_id
}

/// Two group lists hold the same values, group by group.
pub open spec fn same_groups(a: Seq<Group>, b: Seq<Group>) -> bool {
    &&& a.len() == b.len()
    &&& forall|i: int| 0 <= i < a.len() ==> same_group(#[trigger] a[i], b[i])
}

fn copy_group(g: &Group) -> (r: Group)
    ensures
        same_group(r, *g),
{
    let mut blocks: Vec<Block> = Vec::new();
    extend_copy(&mut blocks, &g.blocks);
    let mut connections: Vec<Connection> = Vec::new();
    extend_copy(&mut connections, &g.connections);
    assert(blocks@ =~= g.blocks@);
    assert(connections@ =~= g.connections@);
    Group {
        id: g.id,
        blocks,
        connections,
        direction: g.direction,
        start_block_id: g.start_block_id,
        end_block_id: g.end_block_id,
    }
}

/// Whether no block of `a` has the id or the cell of a block of `b`.
fn share_no_id(a: &Vec<Block>, b: &Vec<Block>) -> (r: bool)
    ensures
        r == forall|x: Block, y: Block| a@.contains(x) && b@.contains(y) ==> x.id != y.id && x.grid_pos != y.grid_pos,
{
    let mut i: usize = 0;
    while i < a.len()
        invariant
            i <= a@.len(),
            forall|p: int, q: int| 0 <= p < i && 0 <= q < b@.len() ==> a@[p].id != b@[q].id && a@[p].grid_pos != b@[q].grid_pos,
        decreases a.len() - i,
    {
        let mut j: usize = 0;
        while j < b.len()
            invariant
                i < a@.len(),
                j <= b@.len(),
                forall|p: int, q: int| 0 <= p < i && 0 <= q < b@.len() ==> a@[p].id != b@[q].id && a@[p].grid_pos != b@[q].grid_pos,
                forall|q: int| 0 <= q < j ==> a@[i as int].id != b@[q].id && a@[i as int].grid_pos != b@[q].grid_pos,
            decreases b.len() - j,
        {
            if a[i].id == b[j].id || (a[i].grid_pos.0 == b[j].grid_pos.0 && a[i].grid_pos.1 == b[j].grid_pos.1) {
                proof {
                    assert(a@.contains(a@[i as int]));
                    assert(b@.contains(b@[j as int]));
                }
                return false;
            }
            j = j + 1;
        }
        i = i + 1;
    }
    proof {
        assert forall|x: Block, y: Block| a@.contains(x) && b@.contains(y) implies x.id != y.id && x.grid_pos != y.grid_pos by {
            let p = choose|p: int| 0 <= p < a@.len() && a@[p] == x;
            let q = choose|q: int| 0 <= q < b@.len() && b@[q] == y;
        }
    }
    true
}

/// Whether no block id is shared by two groups.
fn groups_disjoint(gs: &Vec<Group>) -> (r: bool)
    ensures
        r == blocks_disjoint(gs@),
{
    let n = gs.len();
    let mut i: usize = 0;
    while i < n
        invariant
            n == gs@.len(),
            i <= n,
            forall|p: int, q: int, x: Block, y: Block|
                0 <= p < i && 0 <= q < n && p != q && #[trigger] gs@[p].blocks@.contains(x)
                    && #[trigger] gs@[q].blocks@.contains(y) ==> x.id != y.id && x.grid_pos != y.grid_pos,
        decreases n - i,
    {
        let mut j: usize = 0;
        while j < n
            invariant
                n == gs@.len(),
                i < n,
                j <= n,
                forall|p: int, q: int, x: Block, y: Block|
                    0 <= p < i && 0 <= q < n && p != q && #[trigger] gs@[p].blocks@.contains(x)
                        && #[trigger] gs@[q].blocks@.contains(y) ==> x.id != y.id && x.grid_pos != y.grid_pos,
                forall|q: int, x: Block, y: Block|
                    0 <= q < j && q != i && #[trigger] gs@[i as int].blocks@.contains(x)
                        && #[trigger] gs@[q].blocks@.contains(y) ==> x.id != y.id && x.grid_pos != y.grid_pos,
            decreases n - j,
        {
            if j != i && !share_no_id(&gs[i].blocks, &gs[j].blocks) {
                return false;
            }
            j = j + 1;
        }
        i = i + 1;
    }
    true
}

/// Both groups of every connection of `cs` are present in `gs`, and both its
/// ends are known.
pub open spec fn all_live(gs: Seq<Group>, cs: Seq<Connection>) -> bool {
    forall|q: int|
        0 <= q < cs.len() ==> live(gs, #[trigger] cs[q].from_group) && live(gs, cs[q].to_group)
            && known_ends(cs[q])
}

/// Whether both groups of every connection of `cs` are present in `gs`, and
/// both its ends are a start or an end.
fn connections_live(cs: &Vec<Connection>, ids: &Vec<u32>, gs: Ghost<Seq<Group>>) -> (r: bool)
    requires
        forall|x: u32| ids@.contains(x) <==> live(gs@, x),
    ensures
        r == all_live(gs@, cs@),
{
    let mut c: usize = 0;
    while c < cs.len()
        invariant
            c <= cs@.len(),
            forall|x: u32| ids@.contains(x) <==> live(gs@, x),
            forall|q: int| 0 <= q < c ==> live(gs@, #[trigger] cs@[q].from_group) && live(gs@, cs@[q].to_group) && known_ends(cs@[q]),
        decreases cs.len() - c,
    {
        let cn = cs[c];
        if !contains_id(ids, cn.from_group) || !contains_id(ids, cn.to_group) {
            return false;
        }
        let unknown = match cn.from_connection_type {
            ConnectionType::Unknown => true,
            _ => match cn.to_connection_type {
                ConnectionType::Unknown => true,
                _ => false,
            },
        };
        if unknown {
            return false;
        }
        assert(known_ends(cs@[c as int]));
        assert(live(gs@, cs@[c as int].from_group) && live(gs@, cs@[c as int].to_group));
        assert forall|q: int| 0 <= q < c + 1 implies live(gs@, #[trigger] cs@[q].from_group) && live(gs@, cs@[q].to_group) && known_ends(cs@[q]) by {}
        c = c + 1;
    }
    true
}

/// Whether every block id of `s` is below `bound`.
fn ids_below(s: &Vec<Block>, bound: u32) -> (r: bool)
    ensures
        r == forall|q: int| 0 <= q < s@.len() ==> (#[trigger] s@[q]).id < bound,
{
    let mut k: usize = 0;
    while k < s.len()
        invariant
            k <= s@.len(),
            forall|q: int| 0 <= q < k ==> (#[trigger] s@[q]).id < bound,
        decreases s.len() - k,
    {
        if s[k].id >= bound {
            return false;
        }
        k = k + 1;
    }
    true
}

/// Whether no group but the one at `i` carries its id.
fn id_unique_at(gs: &Vec<Group>, i: usize) -> (r: bool)
    requires
        i < gs@.len(),
    ensures
        r == forall|b: int| 0 <= b < gs@.len() && b != i ==> gs@[i as int].id != #[trigger] gs@[b].id,
{
    let mut j: usize = 0;
    while j < gs.len()
        invariant
            i < gs@.len(),
            j <= gs@.len(),
            forall|b: int| 0 <= b < j && b != i ==> gs@[i as int].id != #[trigger] gs@[b].id,
        decreases gs.len() - j,
    {
        if j != i && gs[j].id == gs[i].id {
            return false;
        }
        j = j + 1;
    }
    true
}

/// Whether the groups and counters satisfy the invariant of the editor.
pub fn layout_is_valid(gs: &Vec<Group>, next_block_id: u32, next_group_id: u32) -> (r: bool)
    ensures
        r == layout_wf(gs@, next_block_id, next_group_id),
{
    let ids = group_ids(gs);
    let n = gs.len();
    let mut i: usize = 0;
    while i < n
        invariant
            n == gs@.len(),
            i <= n,
            forall|x: u32| ids@.contains(x) <==> live(gs@, x),
            forall|a: int| 0 <= a < i ==> (#[trigger] gs@[a]).wf(),
            forall|a: int| 0 <= a < i ==> (#[trigger] gs@[a]).id < next_group_id,
            forall|a: int, b: int| 0 <= a < i && 0 <= b < n && a != b ==> gs@[a].id != gs@[b].id,
            forall|a: int, k: int| 0 <= a < i && 0 <= k < gs@[a].blocks@.len() ==> (#[trigger] gs@[a].blocks@[k]).id < next_block_id,
            forall|a: int| 0 <= a < i ==> all_live(gs@, (#[trigger] gs@[a]).connections@),
        decreases n - i,
    {
        let g = &gs[i];
        if !g.is_well_formed() || g.id >= next_group_id || !id_unique_at(gs, i)
            || !ids_below(&g.blocks, next_block_id) || !connections_live(&g.connections, &ids, Ghost(gs@)) {
            proof {
                if layout_wf(gs@, next_block_id, next_group_id) {
                    assert(gs@[i as int].wf());
                    assert forall|b: int| 0 <= b < gs@.len() && b != i implies gs@[i as int].id != #[trigger] gs@[b].id by {}
                    assert forall|q: int| 0 <= q < gs@[i as int].blocks@.len() implies (#[trigger] gs@[i as int].blocks@[q]).id < next_block_id by {}
                    assert forall|q: int| 0 <= q < gs@[i as int].connections@.len() implies live(gs@, #[trigger] gs@[i as int].connections@[q].from_group) && live(gs@, gs@[i as int].connections@[q].to_group) && known_ends(gs@[i as int].connections@[q]) by {}
                    assert(all_live(gs@, gs@[i as int].connections@));
                }
            }
            return false;
        }
        i = i + 1;
    }
    proof {
        assert forall|a: int, c: int| 0 <= a < n && 0 <= c < gs@[a].connections@.len() implies live(gs@, #[trigger] gs@[a].connections@[c].from_group) && live(gs@, gs@[a].connections@[c].to_group) && known_ends(gs@[a].connections@[c]) by {
            assert(all_live(gs@, gs@[a].connections@));
        }
    }
    groups_disjoint(gs)
}

impl RailwayEditor {
    /// The layout to persist: a copy of the groups, the counters and the mode.
    pub fn save_layout(&self) -> (r: Layout)
        ensures
            same_groups(r.groups@, self.groups@),
            r.next_block_id == self.next_block_id,
            r.next_group_id == self.next_group_id,
            r.app_mode == self.app_mode,
    {
        let mut groups: Vec<Group> = Vec::new();
        let mut i: usize = 0;
        while i < self.groups.len()
            invariant
                i <= self.groups@.len(),
                groups@.len() == i,
                forall|j: int| 0 <= j < i ==> same_group(#[trigger] groups@[j], self.groups@[j]),
            decreases self.groups.len() - i,
        {
            groups.push(copy_group(&self.groups[i]));
            i = i + 1;
        }
        Layout {
            groups,
            next_block_id: self.next_block_id,
            next_group_id: self.next_group_id,
            app_mode: self.app_mode,
        }
    }

    /// Takes the groups and counters of a loaded layout and clears the
    /// selection; the mode stays. A layout that breaks the invariant is
    /// refused with a message, and nothing else changes.
    pub fn load_layout(&mut self, layout: Layout) -> (r: Result<(), EditError>)
        ensures
            r is Ok <==> layout_wf(layout.groups@, layout.next_block_id, layout.next_group_id),
            r is Err ==> r == Err::<(), EditError>(EditError::InvalidLayout)
                && final(self).groups@ == old(self).groups@
                && final(self).next_block_id == old(self).next_block_id
                && final(self).next_group_id == old(self).next_group_id
                && final(self).selected_blocks == old(self).selected_blocks
                && final(self).show_message_box,
            r is Ok ==> final(self).groups@ == layout.groups@
                && final(self).next_block_id == layout.next_block_id
                && final(self).next_group_id == layout.next_group_id
                && final(self).selection() == Seq::<u32>::empty()
                && final(self).message == old(self).message
                && final(self).show_message_box == old(self).show_message_box,
            final(self).app_mode == old(self).app_mode,
            final(self).show_connection_panel == old(self).show_connection_panel,
            old(self).wf() ==> final(self).wf(),
    {
        if !layout_is_valid(&layout.groups, layout.next_block_id, layout.next_group_id) {
            self.message = String::from_str("Failed to load layout");
            self.show_message_box = true;
            return Err(EditError::InvalidLayout);
        }
        self.groups = layout.groups;
        self.next_block_id = layout.next_block_id;
        self.next_group_id = layout.next_group_id;
        sel_clear(&mut self.selected_blocks);
        Ok(())
    }

    /// Whether the editor satisfies its invariant.
    pub fn is_valid(&self) -> (r: bool)
        ensures
            r == self.wf(),
    {
        layout_is_valid(&self.groups, self.next_block_id, self.next_group_id)
    }

    /// Shows or hides the connection panel; the panel being shown is
    /// connection mode.
    pub fn toggle_connection_panel(&mut self)
        ensures
            final(self).show_connection_panel == !old(self).show_connection_panel,
            final(self).app_mode == if final(self).show_connection_panel {
                AppMode::SetConnections
            } else {
                AppMode::Normal
            },
            final(self).groups@ == old(self).groups@,
            final(self).next_block_id == old(self).next_block_id,
            final(self).next_group_id == old(self).next_group_id,
            final(self).selected_blocks == old(self).selected_blocks,
    {
        self.show_connection_panel = !self.show_connection_panel;
        self.app_mode = if self.show_connection_panel {
            AppMode::SetConnections
        } else {
            AppMode::Normal
        };
    }
}

/// The direction that the first two blocks give.
fn direction_of(s: &Vec<Block>) -> (r: Option<Direction>)
    ensures
        r == inferred_direction(s@),
{
    if s.len() < 2 {
        None
    } else if s[0].grid_pos.0 == s[1].grid_pos.0 {
        Some(Direction::Vertical)
    } else {
        Some(Direction::Horizontal)
    }
}

} // verus!

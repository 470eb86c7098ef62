use vstd::prelude::*;
use crate::editor::{
    accepts, compatible, connected, find_endpoint, group_with, index_of_group,
    intended_connection, is_duplicate, keeps, layout_wf, lemma_find_endpoint_live,
    lemma_group_with, live, removed, resolving, same_group, same_groups, selectable,
    selectable_in, touches, unique_ids, AppMode,
};
use crate::models::{axis_key, cross_key, has_block_id, strictly_sorted_along, Block, Connection, Direction, Group};

verus! {

/// Next to a lone horizontal group, a cell can take a block iff it lies on
/// that group's row; every block of the group is on that row.
pub proof fn lemma_single_horizontal_neighbor(gs: Seq<Group>, nb: u32, ng: u32, i: int, pos: (i32, i32))
    requires
        layout_wf(gs, nb, ng),
        0 <= i < gs.len(),
        gs[i].direction == Some(Direction::Horizontal),
        touches(gs[i], pos),
        forall|j: int| 0 <= j < gs.len() && j != i ==> !touches(#[trigger] gs[j], pos),
    ensures
        accepts(gs, pos) <==> pos.1 == gs[i].blocks@[0].grid_pos.1,
        forall|k: int|
            0 <= k < gs[i].blocks@.len() ==> (#[trigger] gs[i].blocks@[k]).grid_pos.1
                == gs[i].blocks@[0].grid_pos.1,
{
    let g = gs[i];
    assert(g.wf());
    let s = g.blocks@;
    assert forall|k: int| 0 <= k < s.len() implies (#[trigger] s[k]).grid_pos.1 == s[0].grid_pos.1 by {
        assert(cross_key(s[k], Direction::Horizontal) == cross_key(s[0], Direction::Horizontal));
    }
    assert(s[s.len() - 1].grid_pos.1 == s[0].grid_pos.1);
    if accepts(gs, pos) {
        let j = choose|j: int| 0 <= j < gs.len() && touches(#[trigger] gs[j], pos) && compatible(gs[j], pos);
        assert(j == i);
    }
    if pos.1 == s[0].grid_pos.1 {
        assert(compatible(gs[i], pos));
    }
}

/// In connection mode the two endpoints of every group can be selected.
pub proof fn lemma_endpoints_selectable(gs: Seq<Group>, nb: u32, ng: u32, i: int)
    requires
        layout_wf(gs, nb, ng),
        0 <= i < gs.len(),
    ensures
        selectable(gs, gs[i].blocks@[0].id, AppMode::SetConnections),
        selectable(gs, gs[i].blocks@.last().id, AppMode::SetConnections),
{
    let s = gs[i].blocks@;
    assert(gs[i].wf());
    assert(has_block_id(s, s[0].id));
    assert(has_block_id(s, s[s.len() - 1].id));
    assert(selectable_in(gs[i], s[0].id, AppMode::SetConnections));
    assert(selectable_in(gs[i], s.last().id, AppMode::SetConnections));
}

/// In connection mode a block strictly inside a group, neither its first nor
/// its last, cannot be selected.
pub proof fn lemma_inner_block_not_selectable(gs: Seq<Group>, nb: u32, ng: u32, i: int, k: int)
    requires
        layout_wf(gs, nb, ng),
        0 <= i < gs.len(),
        0 < k < gs[i].blocks@.len() - 1,
    ensures
        !selectable(gs, gs[i].blocks@[k].id, AppMode::SetConnections),
{
    let id = gs[i].blocks@[k].id;
    if selectable(gs, id, AppMode::SetConnections) {
        let j = choose|j: int|
            0 <= j < gs.len() && has_block_id(#[trigger] gs[j].blocks@, id) && selectable_in(
                gs[j],
                id,
                AppMode::SetConnections,
            );
        let l = choose|l: int| 0 <= l < gs[j].blocks@.len() && gs[j].blocks@[l].id == id;
        assert(gs[j].wf());
        assert(gs[i].wf());
        if j != i {
            assert(gs[i].blocks@.contains(gs[i].blocks@[k]));
            assert(gs[j].blocks@.contains(gs[j].blocks@[l]));
        }
        let n = gs[i].blocks@.len();
        assert(gs[i].blocks@[0].id != id);
        assert(gs[i].blocks@[n - 1].id != id);
    }
}

/// The endpoint lookup only reads the ids and endpoints of the groups.
proof fn lemma_find_endpoint_frame(a: Seq<Group>, b: Seq<Group>, id: u32)
    requires
        a.len() == b.len(),
        forall|j: int|
            0 <= j < a.len() ==> (#[trigger] a[j]).id == b[j].id && a[j].start_block_id
                == b[j].start_block_id && a[j].end_block_id == b[j].end_block_id,
    ensures
        find_endpoint(a, id) == find_endpoint(b, id),
    decreases a.len(),
{
    if a.len() > 0 {
        assert(a[a.len() - 1] == a.last());
        assert(b[b.len() - 1] == b.last());
        lemma_find_endpoint_frame(a.drop_last(), b.drop_last(), id);
    }
}

/// The same connection with its two ends swapped.
pub open spec fn reversed(c: Connection) -> Connection {
    Connection {
        from_group: c.to_group,
        to_group: c.from_group,
        from_connection_type: c.to_connection_type,
        to_connection_type: c.from_connection_type,
    }
}

/// Once the connection from endpoint `a` to endpoint `b` is recorded, asking
/// for it again is a duplicate, while the connection from `b` to `a` is the
/// reversed one, and is not made a duplicate by the first.
pub proof fn lemma_connect_twice(
    gs: Seq<Group>,
    after: Seq<Group>,
    nb: u32,
    ng: u32,
    a: u32,
    b: u32,
    c: Connection,
)
    requires
        layout_wf(gs, nb, ng),
        intended_connection(gs, a, b) == Some(c),
        !is_duplicate(gs, c),
        connected(gs, after, c),
        unique_ids(after),
    ensures
        intended_connection(after, a, b) == Some(c),
        is_duplicate(after, c),
        intended_connection(after, b, a) == Some(reversed(c)),
        reversed(c) != c && !is_duplicate(gs, reversed(c)) ==> !is_duplicate(after, reversed(c)),
{
    let k = index_of_group(gs, c.from_group);
    lemma_find_endpoint_live(gs, a);
    assert(live(gs, c.from_group));
    assert(forall|j: int| 0 <= j < gs.len() ==> (#[trigger] gs[j]).id == after[j].id && gs[j].start_block_id
        == after[j].start_block_id && gs[j].end_block_id == after[j].end_block_id);
    lemma_find_endpoint_frame(gs, after, a);
    lemma_find_endpoint_frame(gs, after, b);
    lemma_group_with(after, k);
    assert(after[k].connections@[after[k].connections@.len() - 1] == c);
    let r = reversed(c);
    lemma_find_endpoint_live(gs, b);
    let m = index_of_group(gs, r.from_group);
    lemma_group_with(gs, m);
    lemma_group_with(after, m);
    if r != c && !is_duplicate(gs, r) && is_duplicate(after, r) {
        let w = choose|w: int| 0 <= w < after[m].connections@.len() && after[m].connections@[w] == r;
        if m == k {
            if w < gs[k].connections@.len() {
                assert(gs[k].connections@[w] == r);
            }
        } else {
            assert(gs[m].connections@[w] == r);
        }
    }
}

/// None of the blocks of group `g` is selected.
pub open spec fn untouched(gs: Seq<Group>, g: u32, sel: Seq<u32>) -> bool {
    forall|b: Block| group_with(gs, g).blocks@.contains(b) ==> !sel.contains(b.id)
}

/// Deleting every block of a group removes it and every connection that
/// names it; a connection between two groups none of whose blocks were
/// selected stays.
pub proof fn lemma_delete_group(
    before: Seq<Group>,
    sel: Seq<u32>,
    after: Seq<Group>,
    nb: u32,
    ng: u32,
    g: u32,
)
    requires
        layout_wf(before, nb, ng),
        removed(before, sel, after),
        layout_wf(after, nb, ng),
        live(before, g),
        forall|b: Block| group_with(before, g).blocks@.contains(b) ==> sel.contains(b.id),
    ensures
        !live(after, g),
        forall|i: int, c: int|
            0 <= i < after.len() && 0 <= c < after[i].connections@.len() ==> (
            #[trigger] after[i].connections@[c]).from_group != g && after[i].connections@[c].to_group
                != g,
        forall|c: Connection|
            live(before, c.from_group) && live(before, c.to_group) && untouched(
                before,
                c.from_group,
                sel,
            ) && untouched(before, c.to_group, sel) && #[trigger] group_with(
                before,
                c.from_group,
            ).connections@.contains(c) ==> group_with(after, c.from_group).connections@.contains(c),
{
    assert(!keeps(group_with(before, g), sel));
    assert forall|i: int, c: int|
        0 <= i < after.len() && 0 <= c < after[i].connections@.len() implies (
        #[trigger] after[i].connections@[c]).from_group != g && after[i].connections@[c].to_group
            != g by {
        assert(live(after, after[i].connections@[c].from_group));
    }
    assert forall|c: Connection|
        live(before, c.from_group) && live(before, c.to_group) && untouched(
            before,
            c.from_group,
            sel,
        ) && untouched(before, c.to_group, sel) && #[trigger] group_with(
            before,
            c.from_group,
        ).connections@.contains(c) implies group_with(after, c.from_group).connections@.contains(c) by {
        let g1 = c.from_group;
        let g2 = c.to_group;
        let i1 = index_of_group(before, g1);
        let i2 = index_of_group(before, g2);
        assert(before[i1].wf());
        assert(before[i2].wf());
        assert(group_with(before, g1).blocks@.contains(before[i1].blocks@[0]));
        assert(group_with(before, g2).blocks@.contains(before[i2].blocks@[0]));
        assert(keeps(group_with(before, g1), sel));
        assert(keeps(group_with(before, g2), sel));
        let p = |cc: Connection| live(after, cc.from_group) && live(after, cc.to_group);
        let w = choose|w: int|
            0 <= w < group_with(before, g1).connections@.len() && group_with(before, g1).connections@[w]
                == c;
        group_with(before, g1).connections@.lemma_filter_contains_rev(p, c);
        assert(resolving(group_with(before, g1).connections@, after) == group_with(
            before,
            g1,
        ).connections@.filter(p));
    }
}

/// Saving and loading again on an unchanged editor gives back the same
/// groups, connections and counters: a saved layout always passes the check
/// that loading makes.
pub proof fn lemma_save_load_round_trip(
    gs: Seq<Group>,
    saved: Seq<Group>,
    nb: u32,
    ng: u32,
)
    requires
        layout_wf(gs, nb, ng),
        same_groups(saved, gs),
    ensures
        layout_wf(saved, nb, ng),
{
    assert forall|x: u32| live(saved, x) <==> live(gs, x) by {
        if live(saved, x) {
            let j = choose|j: int| 0 <= j < saved.len() && saved[j].id == x;
            assert(same_group(saved[j], gs[j]));
        }
        if live(gs, x) {
            let j = choose|j: int| 0 <= j < gs.len() && gs[j].id == x;
            assert(same_group(saved[j], gs[j]));
        }
    }
    assert forall|i: int| 0 <= i < saved.len() implies (#[trigger] saved[i]).wf() by {
        assert(same_group(saved[i], gs[i]));
        assert(gs[i].wf());
    }
    assert forall|i: int, j: int| 0 <= i < saved.len() && 0 <= j < saved.len() && i != j implies saved[i].id
        != saved[j].id by {
        assert(same_group(saved[i], gs[i]));
        assert(same_group(saved[j], gs[j]));
    }
    assert forall|i: int| 0 <= i < saved.len() implies (#[trigger] saved[i]).id < ng by {
        assert(same_group(saved[i], gs[i]));
    }
    assert forall|i: int, k: int| 0 <= i < saved.len() && 0 <= k < saved[i].blocks@.len() implies (
    #[trigger] saved[i].blocks@[k]).id < nb by {
        assert(same_group(saved[i], gs[i]));
        assert(gs[i].blocks@[k] == saved[i].blocks@[k]);
    }
    assert forall|i: int, c: int| 0 <= i < saved.len() && 0 <= c < saved[i].connections@.len() implies live(
        saved,
        #[trigger] saved[i].connections@[c].from_group,
    ) && live(saved, saved[i].connections@[c].to_group) by {
        assert(same_group(saved[i], gs[i]));
        assert(gs[i].connections@[c] == saved[i].connections@[c]);
    }
}

/// The blocks of a well-formed group with a direction are strictly ordered
/// along it, so recomputing its endpoints leaves them where they are.
pub proof fn lemma_wf_strictly_sorted(g: Group)
    requires
        g.wf(),
        g.direction is Some,
    ensures
        strictly_sorted_along(g.blocks@, g.direction.unwrap()),
{
    let d = g.direction.unwrap();
    let s = g.blocks@;
    assert forall|i: int, j: int| 0 <= i < j < s.len() implies axis_key(s[i], d) < axis_key(s[j], d) by {
        assert(axis_key(s[i], d) <= axis_key(s[j], d));
        assert(cross_key(s[i], d) == cross_key(s[j], d));
        assert(s[i].grid_pos != s[j].grid_pos);
    }
}

} // verus!

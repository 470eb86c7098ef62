use vstd::prelude::*;

verus! {

broadcast use vstd::seq_lib::group_to_multiset_ensures;

/// One placed unit of track, at an integer grid cell.
#[derive(Clone, Copy, Debug, PartialEq, Eq)]
pub struct Block {
    pub id: u32,
    pub grid_pos: (i32, i32),
}

/// Which end of a group a connection is attached to.
#[derive(Clone, Copy, Debug, PartialEq, Eq, Structural)]
pub enum ConnectionType {
    Start,
    End,
    Unknown,
}

/// A directed link from an endpoint of one group to an endpoint of another.
#[derive(Clone, Copy, Debug, PartialEq, Eq, Structural)]
pub struct Connection {
    pub from_group: u32,
    pub to_group: u32,
    pub from_connection_type: ConnectionType,
    pub to_connection_type: ConnectionType,
}

impl Default for Connection {
    fn default() -> (r: Self)
        ensures
            r.from_group == 0,
            r.to_group == 0,
            r.from_connection_type == ConnectionType::Unknown,
            r.to_connection_type == ConnectionType::Unknown,
    {
        Connection {
            from_group: 0,
            to_group: 0,
            from_connection_type: ConnectionType::Unknown,
            to_connection_type: ConnectionType::Unknown,
        }
    }
}

/// The axis along which the blocks of a group are laid out.
#[derive(Clone, Copy, Debug, PartialEq, Eq, Structural)]
pub enum Direction {
    Horizontal,
    Vertical,
}

/// A straight run of blocks, with its inferred direction, its two endpoints and
/// the connections that leave it.
#[derive(Clone, Debug)]
pub struct Group {
    pub id: u32,
    pub blocks: Vec<Block>,
    pub connections: Vec<Connection>,
    pub direction: Option<Direction>,
    pub start_block_id: Option<u32>,
    pub end_block_id: Option<u32>,
}

/// The coordinate that varies along direction `d`: x for a horizontal run,
/// y for a vertical one.
pub open spec fn axis_key(b: Block, d: Direction) -> int {
    match d {
        Direction::Horizontal => b.grid_pos.0 as int,
        Direction::Vertical => b.grid_pos.1 as int,
    }
}

/// The coordinate that stays fixed along direction `d`.
pub open spec fn cross_key(b: Block, d: Direction) -> int {
    match d {
        Direction::Horizontal => b.grid_pos.1 as int,
        Direction::Vertical => b.grid_pos.0 as int,
    }
}

/// Blocks in ascending order of their coordinate along `d`.
pub open spec fn sorted_along(s: Seq<Block>, d: Direction) -> bool {
    forall|i: int, j: int| 0 <= i <= j < s.len() ==> axis_key(s[i], d) <= axis_key(s[j], d)
}

/// Blocks in strictly ascending order of their coordinate along `d`.
pub open spec fn strictly_sorted_along(s: Seq<Block>, d: Direction) -> bool {
    forall|i: int, j: int| 0 <= i < j < s.len() ==> axis_key(s[i], d) < axis_key(s[j], d)
}

/// All blocks share the coordinate orthogonal to `d`.
pub open spec fn collinear_along(s: Seq<Block>, d: Direction) -> bool {
    forall|i: int, j: int|
        0 <= i < s.len() && 0 <= j < s.len() ==> cross_key(s[i], d) == cross_key(s[j], d)
}

/// No two blocks stand on the same cell.
pub open spec fn distinct_cells(s: Seq<Block>) -> bool {
    forall|i: int, j: int|
        0 <= i < s.len() && 0 <= j < s.len() && i != j ==> s[i].grid_pos != s[j].grid_pos
}

/// No two blocks carry the same id.
pub open spec fn distinct_ids(s: Seq<Block>) -> bool {
    forall|i: int, j: int| 0 <= i < s.len() && 0 <= j < s.len() && i != j ==> s[i].id != s[j].id
}

/// Direction read off the first two blocks: equal x means vertical.
pub open spec fn inferred_direction(s: Seq<Block>) -> Option<Direction> {
    if s.len() < 2 {
        None
    } else if s[0].grid_pos.0 == s[1].grid_pos.0 {
        Some(Direction::Vertical)
    } else {
        Some(Direction::Horizontal)
    }
}

/// A block belongs to the run if its id is the id of one of the blocks.
pub open spec fn has_block_id(s: Seq<Block>, id: u32) -> bool {
    exists|i: int| 0 <= i < s.len() && s[i].id == id
}

/// Some block of `s` stands on `pos`.
pub open spec fn block_at(s: Seq<Block>, pos: (i32, i32)) -> bool {
    exists|i: int| 0 <= i < s.len() && s[i].grid_pos == pos
}

/// Reordering a run keeps its cells distinct.
pub proof fn lemma_distinct_cells_permutation(s: Seq<Block>, t: Seq<Block>)
    requires
        distinct_cells(s),
        s.to_multiset() =~= t.to_multiset(),
    ensures
        distinct_cells(t),
{
    assert(s.no_duplicates()) by {
        assert forall|i: int, j: int|
            0 <= i < s.len() && 0 <= j < s.len() && i != j implies s[i] != s[j] by {}
    }
    s.lemma_multiset_has_no_duplicates();
    t.lemma_multiset_has_no_duplicates_conv();
    assert forall|i: int, j: int|
        0 <= i < t.len() && 0 <= j < t.len() && i != j implies t[i].grid_pos != t[j].grid_pos by {
        lemma_member_moves(t, s, t[i]);
        lemma_member_moves(t, s, t[j]);
        let p = choose|p: int| 0 <= p < s.len() && s[p] == t[i];
        let q = choose|q: int| 0 <= q < s.len() && s[q] == t[j];
        assert(t[i] != t[j]);
    }
}

/// Reordering a run keeps its block ids distinct.
pub proof fn lemma_distinct_ids_permutation(s: Seq<Block>, t: Seq<Block>)
    requires
        distinct_ids(s),
        s.to_multiset() =~= t.to_multiset(),
    ensures
        distinct_ids(t),
{
    assert(s.no_duplicates()) by {
        assert forall|i: int, j: int|
            0 <= i < s.len() && 0 <= j < s.len() && i != j implies s[i] != s[j] by {}
    }
    s.lemma_multiset_has_no_duplicates();
    t.lemma_multiset_has_no_duplicates_conv();
    assert forall|i: int, j: int|
        0 <= i < t.len() && 0 <= j < t.len() && i != j implies t[i].id != t[j].id by {
        lemma_member_moves(t, s, t[i]);
        lemma_member_moves(t, s, t[j]);
        let p = choose|p: int| 0 <= p < s.len() && s[p] == t[i];
        let q = choose|q: int| 0 <= q < s.len() && s[q] == t[j];
        assert(t[i] != t[j]);
    }
}

/// Two runs with distinct ids and no id in common join into a run with
/// distinct ids.
pub proof fn lemma_concat_distinct_ids(a: Seq<Block>, b: Seq<Block>)
    requires
        distinct_ids(a),
        distinct_ids(b),
        forall|x: Block, y: Block| a.contains(x) && b.contains(y) ==> x.id != y.id,
    ensures
        distinct_ids(a + b),
{
    let s = a + b;
    assert forall|i: int, j: int| 0 <= i < s.len() && 0 <= j < s.len() && i != j implies s[i].id != s[j].id by {
        if i < a.len() && j >= a.len() {
            assert(a.contains(a[i]));
            assert(b.contains(b[j - a.len()]));
        } else if j < a.len() && i >= a.len() {
            assert(a.contains(a[j]));
            assert(b.contains(b[i - a.len()]));
        } else if i >= a.len() {
            assert(s[i] == b[i - a.len()] && s[j] == b[j - a.len()]);
        }
    }
}

/// An element of a sequence is an element of any reordering of it.
pub proof fn lemma_member_moves(s: Seq<Block>, t: Seq<Block>, b: Block)
    requires
        s.to_multiset() =~= t.to_multiset(),
        s.contains(b),
    ensures
        t.contains(b),
{
    assert(s.to_multiset().count(b) > 0);
    assert(t.to_multiset().count(b) > 0);
}

/// A run of blocks that can form one group: distinct cells, and, from two
/// blocks on, one shared row or one shared column.
pub open spec fn straight(s: Seq<Block>) -> bool {
    &&& distinct_cells(s)
    &&& (s.len() >= 2 ==> collinear_along(s, Direction::Horizontal) || collinear_along(
        s,
        Direction::Vertical,
    ))
}

/// In a straight run of two or more blocks the first two blocks give the
/// direction along which all of them lie.
pub proof fn lemma_straight_direction(s: Seq<Block>, d: Direction)
    requires
        distinct_cells(s),
        collinear_along(s, d),
        s.len() >= 2,
    ensures
        inferred_direction(s) == Some(d),
{
    assert(s[0].grid_pos != s[1].grid_pos);
    assert(cross_key(s[0], d) == cross_key(s[1], d));
}

/// Reordering a run keeps it on one row or column.
pub proof fn lemma_collinear_permutation(s: Seq<Block>, t: Seq<Block>, d: Direction)
    requires
        collinear_along(s, d),
        s.to_multiset() =~= t.to_multiset(),
    ensures
        collinear_along(t, d),
{
    assert forall|i: int, j: int| 0 <= i < t.len() && 0 <= j < t.len() implies cross_key(t[i], d)
        == cross_key(t[j], d) by {
        lemma_member_moves(t, s, t[i]);
        lemma_member_moves(t, s, t[j]);
        let p = choose|p: int| 0 <= p < s.len() && s[p] == t[i];
        let q = choose|q: int| 0 <= q < s.len() && s[q] == t[j];
    }
}

/// A run that holds two distinct cells of a line along `d` lies on no other
/// line: a straight run that takes in such a run keeps direction `d`.
pub proof fn lemma_direction_kept(s: Seq<Block>, t: Seq<Block>, d: Direction, e: Direction)
    requires
        s.len() >= 2,
        distinct_cells(s),
        collinear_along(s, d),
        forall|b: Block| s.contains(b) ==> t.contains(b),
        collinear_along(t, e),
    ensures
        d == e,
{
    assert(s.contains(s[0]));
    assert(s.contains(s[1]));
    let p = choose|p: int| 0 <= p < t.len() && t[p] == s[0];
    let q = choose|q: int| 0 <= q < t.len() && t[q] == s[1];
    assert(s[0].grid_pos != s[1].grid_pos);
    assert(cross_key(s[0], d) == cross_key(s[1], d));
    assert(cross_key(t[p], e) == cross_key(t[q], e));
}

/// Whether the blocks form a straight run.
pub fn is_straight(s: &Vec<Block>) -> (r: bool)
    ensures
        r == straight(s@),
{
    let n = s.len();
    let mut i: usize = 0;
    while i < n
        invariant
            n == s@.len(),
            i <= n,
            forall|a: int, b: int| 0 <= a < i && 0 <= b < n && a != b ==> s@[a].grid_pos != s@[b].grid_pos,
        decreases n - i,
    {
        let mut j: usize = 0;
        while j < n
            invariant
                n == s@.len(),
                i < n,
                j <= n,
                forall|a: int, b: int| 0 <= a < i && 0 <= b < n && a != b ==> s@[a].grid_pos != s@[b].grid_pos,
                forall|b: int| 0 <= b < j && b != i ==> s@[i as int].grid_pos != s@[b].grid_pos,
            decreases n - j,
        {
            if j != i && s[i].grid_pos.0 == s[j].grid_pos.0 && s[i].grid_pos.1 == s[j].grid_pos.1 {
                return false;
            }
            j = j + 1;
        }
        i = i + 1;
    }
    if n < 2 {
        return true;
    }
    let mut same_y = true;
    let mut same_x = true;
    let mut k: usize = 0;
    while k < n
        invariant
            n == s@.len(),
            n >= 2,
            k <= n,
            same_y == forall|a: int| 0 <= a < k ==> (#[trigger] s@[a]).grid_pos.1 == s@[0].grid_pos.1,
            same_x == forall|a: int| 0 <= a < k ==> (#[trigger] s@[a]).grid_pos.0 == s@[0].grid_pos.0,
        decreases n - k,
    {
        if s[k].grid_pos.1 != s[0].grid_pos.1 {
            same_y = false;
        }
        if s[k].grid_pos.0 != s[0].grid_pos.0 {
            same_x = false;
        }
        k = k + 1;
    }
    if !same_y {
        assert(!collinear_along(s@, Direction::Horizontal)) by {
            let a = choose|a: int| 0 <= a < n && (#[trigger] s@[a]).grid_pos.1 != s@[0].grid_pos.1;
            assert(cross_key(s@[a], Direction::Horizontal) != cross_key(s@[0], Direction::Horizontal));
        }
    }
    if !same_x {
        assert(!collinear_along(s@, Direction::Vertical)) by {
            let a = choose|a: int| 0 <= a < n && (#[trigger] s@[a]).grid_pos.0 != s@[0].grid_pos.0;
            assert(cross_key(s@[a], Direction::Vertical) != cross_key(s@[0], Direction::Vertical));
        }
    }
    same_y || same_x
}

/// Whether no two blocks carry the same id.
pub fn has_distinct_ids(s: &Vec<Block>) -> (r: bool)
    ensures
        r == distinct_ids(s@),
{
    let n = s.len();
    let mut i: usize = 0;
    while i < n
        invariant
            n == s@.len(),
            i <= n,
            forall|a: int, b: int| 0 <= a < i && 0 <= b < n && a != b ==> s@[a].id != s@[b].id,
        decreases n - i,
    {
        let mut j: usize = 0;
        while j < n
            invariant
                n == s@.len(),
                i < n,
                j <= n,
                forall|a: int, b: int| 0 <= a < i && 0 <= b < n && a != b ==> s@[a].id != s@[b].id,
                forall|b: int| 0 <= b < j && b != i ==> s@[i as int].id != s@[b].id,
            decreases n - j,
        {
            if j != i && s[i].id == s[j].id {
                return false;
            }
            j = j + 1;
        }
        i = i + 1;
    }
    true
}

fn key_along(b: &Block, d: Direction) -> (r: i32)
    ensures
        r as int == axis_key(*b, d),
{
    match d {
        Direction::Horizontal => b.grid_pos.0,
        Direction::Vertical => b.grid_pos.1,
    }
}

impl Group {
    /// A group as every completed operation leaves it: not empty, its blocks
    /// with distinct ids in one straight line on distinct cells, sorted along its direction, and
    /// its endpoints the first and the last block.
    pub open spec fn wf(&self) -> bool {
        let s = self.blocks@;
        &&& s.len() > 0
        &&& distinct_cells(s)
        &&& distinct_ids(s)
        &&& self.direction == inferred_direction(s)
        &&& (s.len() >= 2 ==> self.direction is Some)
        &&& (self.direction matches Some(d) ==> sorted_along(s, d) && collinear_along(s, d))
        &&& self.start_block_id == Some(s[0].id)
        &&& self.end_block_id == Some(s.last().id)
    }

    /// Recomputes the endpoints. With a direction, the blocks are first sorted
    /// ascending along it, blocks with equal coordinates keeping their relative
    /// order, and that order is kept; the start is then the first
    /// block and the end the last. An empty group has no endpoints.
    pub fn update_start_end_blocks(&mut self)
        ensures
            final(self).id == old(self).id,
            final(self).connections@ == old(self).connections@,
            final(self).direction == old(self).direction,
            final(self).blocks@.to_multiset() =~= old(self).blocks@.to_multiset(),
            final(self).blocks@.len() == old(self).blocks@.len(),
            old(self).direction is None ==> final(self).blocks@ == old(self).blocks@,
            old(self).direction matches Some(d) ==> sorted_along(final(self).blocks@, d),
            old(self).direction matches Some(d) && strictly_sorted_along(old(self).blocks@, d)
                ==> final(self).blocks@ == old(self).blocks@,
            old(self).direction matches Some(d) ==> forall|i: int, j: int|
                0 <= i < j < final(self).blocks@.len() && axis_key(final(self).blocks@[i], d)
                    == axis_key(final(self).blocks@[j], d) ==> exists|p: int, q: int|
                    0 <= p < q < old(self).blocks@.len() && old(self).blocks@[p]
                        == final(self).blocks@[i] && old(self).blocks@[q] == final(self).blocks@[j],
            final(self).blocks@.len() == 0 ==> final(self).start_block_id is None
                && final(self).end_block_id is None,
            final(self).blocks@.len() > 0 ==> final(self).start_block_id == Some(
                final(self).blocks@[0].id,
            ) && final(self).end_block_id == Some(final(self).blocks@.last().id),
    {
        if self.blocks.len() == 0 {
            self.start_block_id = None;
            self.end_block_id = None;
            return ;
        }
        match self.direction {
            Some(d) => {
                let ghost orig = self.blocks@;
                let mut rest: Vec<Block> = Vec::new();
                std::mem::swap(&mut rest, &mut self.blocks);
                let mut sorted: Vec<Block> = Vec::new();
                let ghost mut pos: Seq<int> = Seq::empty();
                let ghost mut rpos: Seq<int> = Seq::new(orig.len(), |i: int| i);
                while rest.len() > 0
                    invariant
                        orig.len() > 0,
                        sorted@.len() + rest@.len() == orig.len(),
                        sorted@.to_multiset().add(rest@.to_multiset()) =~= orig.to_multiset(),
                        sorted_along(sorted@, d),
                        forall|i: int, j: int|
                            0 <= i < sorted@.len() && 0 <= j < rest@.len() ==> axis_key(
                                sorted@[i],
                                d,
                            ) <= axis_key(rest@[j], d),
                        pos.len() == sorted@.len(),
                        rpos.len() == rest@.len(),
                        forall|i: int| 0 <= i < pos.len() ==> 0 <= #[trigger] pos[i] < orig.len() && orig[pos[i]] == sorted@[i],
                        forall|i: int| 0 <= i < rpos.len() ==> 0 <= #[trigger] rpos[i] < orig.len() && orig[rpos[i]] == rest@[i],
                        forall|i: int, j: int| 0 <= i < j < rpos.len() ==> rpos[i] < rpos[j],
                        forall|i: int, j: int|
                            0 <= i < j < pos.len() && axis_key(sorted@[i], d) == axis_key(sorted@[j], d) ==> pos[i] < pos[j],
                        forall|i: int, j: int|
                            0 <= i < pos.len() && 0 <= j < rpos.len() && axis_key(sorted@[i], d) == axis_key(rest@[j], d) ==> pos[i] < rpos[j],
                        strictly_sorted_along(orig, d) ==> forall|i: int| 0 <= i < rpos.len() ==> #[trigger] rpos[i] == pos.len() + i,
                        strictly_sorted_along(orig, d) ==> forall|i: int| 0 <= i < pos.len() ==> #[trigger] pos[i] == i,
                    decreases rest.len(),
                {
                    proof {
                        if strictly_sorted_along(orig, d) {
                            assert forall|j: int| 0 < j < rest@.len() implies axis_key(rest@[0], d) < axis_key(#[trigger] rest@[j], d) by {
                                assert(rpos[0] < rpos[j]);
                                assert(orig[rpos[0]] == rest@[0] && orig[rpos[j]] == rest@[j]);
                            }
                        }
                    }
                    let mut m: usize = 0;
                    let mut k: usize = 1;
                    while k < rest.len()
                        invariant
                            m < k <= rest@.len(),
                            forall|j: int| 0 <= j < k ==> axis_key(rest@[m as int], d) <= axis_key(
                                rest@[j],
                                d,
                            ),
                            forall|j: int| 0 <= j < m ==> axis_key(rest@[m as int], d) < axis_key(
                                rest@[j],
                                d,
                            ),
                            strictly_sorted_along(orig, d) ==> m == 0,
                            strictly_sorted_along(orig, d) ==> forall|j: int| 0 < j < rest@.len() ==> axis_key(rest@[0], d) < axis_key(#[trigger] rest@[j], d),
                        decreases rest.len() - k,
                    {
                        if key_along(&rest[k], d) < key_along(&rest[m], d) {
                            m = k;
                        }
                        k = k + 1;
                    }
                    let ghost before = rest@;
                    let ghost rb = rpos;
                    let ghost sb = sorted@;
                    let ghost pb = pos;
                    let b = rest.remove(m);
                    assert(before.remove(m as int).to_multiset() =~= before.to_multiset().remove(b));
                    assert(before.to_multiset().count(b) > 0) by {
                        assert(before.contains(b));
                    }
                    sorted.push(b);
                    proof {
                        pos = pos.push(rb[m as int]);
                        rpos = rb.remove(m as int);
                        assert forall|i: int| 0 <= i < rpos.len() implies 0 <= #[trigger] rpos[i] < orig.len() && orig[rpos[i]] == rest@[i] by {
                            if i < m {
                                assert(rpos[i] == rb[i] && rest@[i] == before[i]);
                            } else {
                                assert(rpos[i] == rb[i + 1] && rest@[i] == before[i + 1]);
                            }
                        }
                        assert forall|i: int, j: int| 0 <= i < j < rpos.len() implies rpos[i] < rpos[j] by {
                            let ii = if i < m { i } else { i + 1 };
                            let jj = if j < m { j } else { j + 1 };
                            assert(rpos[i] == rb[ii] && rpos[j] == rb[jj]);
                        }
                        assert forall|i: int| 0 <= i < pos.len() implies 0 <= #[trigger] pos[i] < orig.len() && orig[pos[i]] == sorted@[i] by {
                            if i < pb.len() {
                                assert(pos[i] == pb[i] && sorted@[i] == sb[i]);
                            }
                        }
                        assert forall|i: int, j: int|
                            0 <= i < j < pos.len() && axis_key(sorted@[i], d) == axis_key(sorted@[j], d) implies pos[i] < pos[j] by {
                            if j < pb.len() {
                                assert(sorted@[i] == sb[i] && sorted@[j] == sb[j]);
                            } else {
                                assert(sorted@[i] == sb[i] && sorted@[j] == before[m as int]);
                            }
                        }
                        assert forall|i: int, j: int|
                            0 <= i < pos.len() && 0 <= j < rpos.len() && axis_key(sorted@[i], d) == axis_key(rest@[j], d) implies pos[i] < rpos[j] by {
                            let jj = if j < m { j } else { j + 1 };
                            assert(rest@[j] == before[jj] && rpos[j] == rb[jj]);
                            if i < pb.len() {
                                assert(sorted@[i] == sb[i]);
                            } else {
                                assert(sorted@[i] == before[m as int]);
                                if jj < m {
                                    assert(axis_key(before[m as int], d) < axis_key(before[jj], d));
                                }
                            }
                        }
                    }
                    assert forall|i: int, j: int|
                        0 <= i < sorted@.len() && 0 <= j < rest@.len() implies axis_key(
                            sorted@[i],
                            d,
                        ) <= axis_key(rest@[j], d) by {
                        if j < m {
                            assert(rest@[j] == before[j]);
                        } else {
                            assert(rest@[j] == before[j + 1]);
                        }
                    }
                }
                proof {
                    if strictly_sorted_along(orig, d) {
                        assert forall|i: int| 0 <= i < sorted@.len() implies sorted@[i] == orig[i] by {
                            assert(pos[i] == i);
                        }
                        assert(sorted@ =~= orig);
                    }
                    assert forall|i: int, j: int|
                        0 <= i < j < sorted@.len() && axis_key(sorted@[i], d) == axis_key(sorted@[j], d)
                        implies exists|p: int, q: int| 0 <= p < q < orig.len() && orig[p] == sorted@[i] && orig[q] == sorted@[j] by {
                        assert(pos[i] < pos[j]);
                        assert(orig[pos[i]] == sorted@[i] && orig[pos[j]] == sorted@[j]);
                    }
                }
                self.blocks = sorted;
            },
            None => {},
        }
        let n = self.blocks.len();
        self.start_block_id = Some(self.blocks[0].id);
        self.end_block_id = Some(self.blocks[n - 1].id);
    }

    /// Makes a straight, non-empty run a well-formed group: the direction is
    /// read off its first two blocks, then the endpoints are recomputed.
    pub fn settle(&mut self)
        requires
            old(self).blocks@.len() > 0,
            straight(old(self).blocks@),
            distinct_ids(old(self).blocks@),
        ensures
            final(self).wf(),
            final(self).id == old(self).id,
            final(self).connections@ == old(self).connections@,
            final(self).blocks@.to_multiset() =~= old(self).blocks@.to_multiset(),
            final(self).direction == inferred_direction(old(self).blocks@),
    {
        let ghost s = self.blocks@;
        let d = if self.blocks.len() < 2 {
            None
        } else if self.blocks[0].grid_pos.0 == self.blocks[1].grid_pos.0 {
            Some(Direction::Vertical)
        } else {
            Some(Direction::Horizontal)
        };
        self.direction = d;
        proof {
            if s.len() >= 2 {
                if collinear_along(s, Direction::Horizontal) {
                    lemma_straight_direction(s, Direction::Horizontal);
                } else {
                    lemma_straight_direction(s, Direction::Vertical);
                }
            }
        }
        self.update_start_end_blocks();
        proof {
            let t = self.blocks@;
            lemma_distinct_cells_permutation(s, t);
            lemma_distinct_ids_permutation(s, t);
            if let Some(dd) = d {
                lemma_collinear_permutation(s, t, dd);
                lemma_straight_direction(t, dd);
            }
        }
    }

    /// Whether the group is well formed.
    pub fn is_well_formed(&self) -> (r: bool)
        ensures
            r == self.wf(),
    {
        let n = self.blocks.len();
        if n == 0 {
            return false;
        }
        if !has_distinct_ids(&self.blocks) {
            return false;
        }
        if !is_straight(&self.blocks) {
            proof {
                if self.wf() {
                    if n >= 2 {
                        let d = self.direction.unwrap();
                        assert(collinear_along(self.blocks@, d));
                    }
                }
            }
            return false;
        }
        let d0 = if n < 2 {
            None
        } else if self.blocks[0].grid_pos.0 == self.blocks[1].grid_pos.0 {
            Some(Direction::Vertical)
        } else {
            Some(Direction::Horizontal)
        };
        assert(d0 == inferred_direction(self.blocks@));
        if !(match (d0, self.direction) {
            (None, None) => true,
            (Some(Direction::Vertical), Some(Direction::Vertical)) => true,
            (Some(Direction::Horizontal), Some(Direction::Horizontal)) => true,
            _ => false,
        }) {
            return false;
        }
        if let Some(d) = self.direction {
            let mut k: usize = 1;
            while k < n
                invariant
                    n == self.blocks@.len(),
                    self.direction == Some(d),
                    1 <= k <= n,
                    forall|a: int, b: int| 0 <= a <= b < k ==> axis_key(self.blocks@[a], d) <= axis_key(self.blocks@[b], d),
                    forall|a: int| 0 <= a < k ==> cross_key(#[trigger] self.blocks@[a], d) == cross_key(self.blocks@[0], d),
                decreases n - k,
            {
                if key_along(&self.blocks[k - 1], d) > key_along(&self.blocks[k], d) {
                    assert(!sorted_along(self.blocks@, d));
                    return false;
                }
                let c0 = match d {
                    Direction::Horizontal => self.blocks[0].grid_pos.1,
                    Direction::Vertical => self.blocks[0].grid_pos.0,
                };
                let ck = match d {
                    Direction::Horizontal => self.blocks[k].grid_pos.1,
                    Direction::Vertical => self.blocks[k].grid_pos.0,
                };
                if c0 != ck {
                    assert(cross_key(self.blocks@[k as int], d) != cross_key(self.blocks@[0], d));
                    assert(!collinear_along(self.blocks@, d));
                    return false;
                }
                k = k + 1;
            }
        }
        let first = self.blocks[0].id;
        let last = self.blocks[n - 1].id;
        match (self.start_block_id, self.end_block_id) {
            (Some(s), Some(e)) => s == first && e == last,
            _ => false,
        }
    }

    /// Whether block `id` may be selected: when both endpoint ids are given,
    /// only if it is one of them; otherwise always.
    pub fn check_selected_blocks(&self, id: u32, start_id_op: Option<u32>, end_id_op: Option<u32>) -> (r: bool)
        ensures
            r == match (start_id_op, end_id_op) {
                (Some(s), Some(e)) => id == s || id == e,
                _ => true,
            },
    {
        if let Some(end_id) = end_id_op {
            if let Some(start_id) = start_id_op {
                return end_id == id || start_id == id;
            }
        }
        true
    }
}

} // verus!

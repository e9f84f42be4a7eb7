//! The board: grid of tiles, loose tile, player tokens, lane insertion and
//! reachability.

use vstd::prelude::*;
use vstd::assert_multisets_equal;
use vstd::multiset::Multiset;
use std::collections::BTreeMap;
use std::collections::BTreeSet;
use crate::tile::{step, spec_playable_tile, spec_step, Direction, Player, PlayerID, Shape, Tile};

verus! {

/// All tiles resident on the rows of grid `g`, as a multiset.
pub open spec fn rows_tiles(g: Seq<Seq<Tile>>) -> Multiset<Tile>
    decreases g.len(),
{
    if g.len() == 0 {
        Multiset::empty()
    } else {
        rows_tiles(g.drop_last()).add(g.last().to_multiset())
    }
}

/// Peeling one row off the front of a prefix of `g`.
proof fn lemma_rows_tiles_take(g: Seq<Seq<Tile>>, k: int)
    requires
        0 <= k < g.len(),
    ensures
        rows_tiles(g.take(k + 1)) == rows_tiles(g.take(k)).add(g[k].to_multiset()),
{
    assert(g.take(k + 1).drop_last() =~= g.take(k));
    assert(g.take(k + 1).last() == g[k]);
}

/// The tile of grid `g` at coordinate pair `p`.
spec fn grid_at(g: Seq<Seq<Tile>>, p: (int, int)) -> Tile {
    g[p.0][p.1]
}

/// The tile that the cell `(j, i)` holds after the loose tile `loose` has
/// entered grid `pre` from edge `dir` along lane `t`: the entry-edge cell of
/// the lane holds the loose tile, every other lane cell holds its neighbor
/// toward the entry edge, and cells off the lane are untouched.
pub open spec fn spec_shifted_cell(
    pre: Seq<Seq<Tile>>,
    loose: Tile,
    dir: Direction,
    t: int,
    j: int,
    i: int,
) -> Tile {
    let h = pre.len() as int;
    let w = pre[0].len() as int;
    match dir {
        Direction::North => if i == t {
            if j == 0 {
                loose
            } else {
                pre[j - 1][i]
            }
        } else {
            pre[j][i]
        },
        Direction::South => if i == t {
            if j == h - 1 {
                loose
            } else {
                pre[j + 1][i]
            }
        } else {
            pre[j][i]
        },
        Direction::West => if j == t {
            if i == 0 {
                loose
            } else {
                pre[j][i - 1]
            }
        } else {
            pre[j][i]
        },
        Direction::East => if j == t {
            if i == w - 1 {
                loose
            } else {
                pre[j][i + 1]
            }
        } else {
            pre[j][i]
        },
    }
}

/// The tile pushed off the far edge when the loose tile enters grid `pre`
/// from edge `dir` along lane `t`; it becomes the new loose tile.
pub open spec fn spec_pushed_off(pre: Seq<Seq<Tile>>, dir: Direction, t: int) -> Tile {
    let h = pre.len() as int;
    let w = pre[0].len() as int;
    match dir {
        Direction::North => pre[h - 1][t],
        Direction::South => pre[0][t],
        Direction::West => pre[t][w - 1],
        Direction::East => pre[t][0],
    }
}

/// Number of cells in the lane that an insertion from `dir` rewrites.
spec fn spec_lane_len(dir: Direction, w: int, h: int) -> int {
    match dir {
        Direction::North | Direction::South => h,
        Direction::East | Direction::West => w,
    }
}

/// Whether cell `(a, b)` lies on lane `t` of an insertion from `dir`.
spec fn spec_on_lane(dir: Direction, t: int, a: int, b: int) -> bool {
    match dir {
        Direction::North | Direction::South => b == t,
        Direction::East | Direction::West => a == t,
    }
}

/// The cell the insertion scan occupies after `m` steps: the scan starts at
/// the cell on the far edge and walks lane `t` toward the entry edge.
spec fn spec_scan_pos(dir: Direction, t: int, m: int, w: int, h: int) -> (int, int) {
    match dir {
        Direction::North => (h - 1 - m, t),
        Direction::South => (m, t),
        Direction::West => (t, w - 1 - m),
        Direction::East => (t, m),
    }
}

/// How many scan steps it takes to reach lane cell `(a, b)`; the inverse of
/// [`spec_scan_pos`] for cells on the lane.
spec fn spec_scan_order(dir: Direction, a: int, b: int, w: int, h: int) -> int {
    match dir {
        Direction::North => h - 1 - a,
        Direction::South => a,
        Direction::West => w - 1 - b,
        Direction::East => b,
    }
}

/// Full effect of inserting the loose tile of `pre` from edge `dir` at guide
/// index `g`: the selected lane shifts one cell away from the entry edge, the
/// far cell of the lane becomes the new loose tile, and everything else --
/// other cells, the staged slot, the tokens -- is unchanged.
pub open spec fn spec_inserted(pre: Board, post: Board, dir: Direction, g: int) -> bool {
    let t = 2 * g + 1;
    &&& post.spec_height() == pre.spec_height()
    &&& post.spec_width() == pre.spec_width()
    &&& forall|j: int, i: int|
        pre.in_bounds(j, i) ==> #[trigger] post.grid()[j][i] == spec_shifted_cell(
            pre.grid(),
            pre.loose_tile,
            dir,
            t,
            j,
            i,
        )
    &&& post.loose_tile == spec_pushed_off(pre.grid(), dir, t)
    &&& post.loose_tile_position == pre.loose_tile_position
    &&& post.player_tokens == pre.player_tokens
}

/// Swapping one tile of a row swaps exactly that tile in the row's multiset.
proof fn lemma_row_update_tiles(row: Seq<Tile>, t: int, v: Tile)
    requires
        0 <= t < row.len(),
    ensures
        row.update(t, v).to_multiset().insert(row[t]) == row.to_multiset().insert(v),
{
    broadcast use vstd::seq_lib::group_to_multiset_ensures;
    broadcast use vstd::multiset::group_multiset_axioms;

    assert(row.contains(row[t]));
    assert(row.to_multiset().count(row[t]) > 0);
    assert_multisets_equal!(
        row.update(t, v).to_multiset().insert(row[t]),
        row.to_multiset().insert(v)
    );
}

/// Two grids that differ in one row only hold the same tiles once that row's
/// contents are exchanged.
proof fn lemma_rows_tiles_update_one(g1: Seq<Seq<Tile>>, g2: Seq<Seq<Tile>>, t: int)
    requires
        g1.len() == g2.len(),
        0 <= t < g1.len(),
        forall|a: int| 0 <= a < g1.len() && a != t ==> g2[a] == g1[a],
    ensures
        rows_tiles(g2).add(g1[t].to_multiset()) == rows_tiles(g1).add(g2[t].to_multiset()),
    decreases g1.len(),
{
    broadcast use vstd::multiset::group_multiset_axioms;

    if g1.len() == t + 1 {
        assert(g2.drop_last() =~= g1.drop_last());
        assert(rows_tiles(g2) == rows_tiles(g1.drop_last()).add(g2[t].to_multiset()));
        assert(rows_tiles(g1) == rows_tiles(g1.drop_last()).add(g1[t].to_multiset()));
        assert_multisets_equal!(
            rows_tiles(g2).add(g1[t].to_multiset()),
            rows_tiles(g1).add(g2[t].to_multiset()),
            k => {
                assert(rows_tiles(g2).count(k) == rows_tiles(g1.drop_last()).count(k)
                    + g2[t].to_multiset().count(k));
                assert(rows_tiles(g1).count(k) == rows_tiles(g1.drop_last()).count(k)
                    + g1[t].to_multiset().count(k));
            }
        );
    } else {
        lemma_rows_tiles_update_one(g1.drop_last(), g2.drop_last(), t);
        assert(g2.last() == g1.last());
        assert(g1.drop_last()[t] == g1[t]);
        assert(g2.drop_last()[t] == g2[t]);
        assert(rows_tiles(g2) == rows_tiles(g2.drop_last()).add(g1.last().to_multiset()));
        assert(rows_tiles(g1) == rows_tiles(g1.drop_last()).add(g1.last().to_multiset()));
        assert_multisets_equal!(
            rows_tiles(g2).add(g1[t].to_multiset()),
            rows_tiles(g1).add(g2[t].to_multiset()),
            k => {
                assert(rows_tiles(g2.drop_last()).add(g1[t].to_multiset()).count(k)
                    == rows_tiles(g1.drop_last()).add(g2[t].to_multiset()).count(k));
                assert(rows_tiles(g2).count(k) == rows_tiles(g2.drop_last()).count(k)
                    + g1.last().to_multiset().count(k));
                assert(rows_tiles(g1).count(k) == rows_tiles(g1.drop_last()).count(k)
                    + g1.last().to_multiset().count(k));
            }
        );
    }
}

/// A lane row shifted one cell toward the east holds the same tiles once the
/// entering and leaving tiles are exchanged.
proof fn lemma_row_shift_from_west_tiles(pre_row: Seq<Tile>, post_row: Seq<Tile>, loose: Tile)
    requires
        pre_row.len() == post_row.len(),
        pre_row.len() >= 1,
        post_row[0] == loose,
        forall|i: int| 1 <= i < pre_row.len() ==> post_row[i] == pre_row[i - 1],
    ensures
        post_row.to_multiset().insert(pre_row[pre_row.len() - 1]) == pre_row.to_multiset().insert(
            loose,
        ),
{
    broadcast use vstd::seq_lib::group_to_multiset_ensures;
    broadcast use vstd::multiset::group_multiset_axioms;

    let core = pre_row.drop_last();
    assert(post_row =~= core.insert(0, loose));
    vstd::seq_lib::to_multiset_insert(core, 0, loose);
    assert(pre_row =~= core.push(pre_row[pre_row.len() - 1]));
    assert(pre_row.to_multiset() == core.push(pre_row[pre_row.len() - 1]).to_multiset());
    assert_multisets_equal!(
        post_row.to_multiset().insert(pre_row[pre_row.len() - 1]),
        pre_row.to_multiset().insert(loose)
    );
}

/// A lane row shifted one cell toward the west holds the same tiles once the
/// entering and leaving tiles are exchanged.
proof fn lemma_row_shift_from_east_tiles(pre_row: Seq<Tile>, post_row: Seq<Tile>, loose: Tile)
    requires
        pre_row.len() == post_row.len(),
        pre_row.len() >= 1,
        post_row[post_row.len() - 1] == loose,
        forall|i: int| 0 <= i < pre_row.len() - 1 ==> post_row[i] == pre_row[i + 1],
    ensures
        post_row.to_multiset().insert(pre_row[0]) == pre_row.to_multiset().insert(loose),
{
    broadcast use vstd::seq_lib::group_to_multiset_ensures;
    broadcast use vstd::multiset::group_multiset_axioms;

    let core = pre_row.drop_first();
    assert(post_row =~= core.push(loose));
    assert(pre_row =~= core.insert(0, pre_row[0]));
    vstd::seq_lib::to_multiset_insert(core, 0, pre_row[0]);
    assert(pre_row.to_multiset() == core.insert(0, pre_row[0]).to_multiset());
    assert_multisets_equal!(
        post_row.to_multiset().insert(pre_row[0]),
        pre_row.to_multiset().insert(loose)
    );
}

/// Telescoping step for a column lane shifted one cell toward the south: the
/// first `k` rows of the two grids hold the same tiles once the tile that
/// entered at the top and the tile leaving the prefix at the bottom are
/// exchanged.
proof fn lemma_col_shift_from_north_tiles(
    pre_g: Seq<Seq<Tile>>,
    post_g: Seq<Seq<Tile>>,
    t: int,
    loose: Tile,
    k: int,
)
    requires
        pre_g.len() == post_g.len(),
        pre_g.len() >= 1,
        forall|j: int| 0 <= j < pre_g.len() ==> 0 <= t < (#[trigger] pre_g[j]).len(),
        post_g[0] == pre_g[0].update(t, loose),
        forall|j: int|
            1 <= j < pre_g.len() ==> #[trigger] post_g[j] == pre_g[j].update(t, pre_g[j - 1][t]),
        1 <= k <= pre_g.len(),
    ensures
        rows_tiles(post_g.take(k)).insert(pre_g[k - 1][t]) == rows_tiles(pre_g.take(k)).insert(
            loose,
        ),
    decreases k,
{
    broadcast use vstd::multiset::group_multiset_axioms;

    if k == 1 {
        lemma_rows_tiles_take(pre_g, 0);
        lemma_rows_tiles_take(post_g, 0);
        assert(pre_g.take(0) =~= Seq::<Seq<Tile>>::empty());
        assert(post_g.take(0) =~= Seq::<Seq<Tile>>::empty());
        assert(rows_tiles(Seq::<Seq<Tile>>::empty()) == Multiset::<Tile>::empty());
        assert(rows_tiles(pre_g.take(1)) == Multiset::<Tile>::empty().add(
            pre_g[0].to_multiset(),
        ));
        assert(rows_tiles(post_g.take(1)) == Multiset::<Tile>::empty().add(
            post_g[0].to_multiset(),
        ));
        lemma_row_update_tiles(pre_g[0], t, loose);
        assert(post_g[0].to_multiset().insert(pre_g[0][t]) == pre_g[0].to_multiset().insert(
            loose,
        ));
        assert_multisets_equal!(
            rows_tiles(post_g.take(1)).insert(pre_g[0][t]),
            rows_tiles(pre_g.take(1)).insert(loose),
            x => {
                assert(rows_tiles(post_g.take(1)).count(x) == post_g[0].to_multiset().count(x));
                assert(rows_tiles(pre_g.take(1)).count(x) == pre_g[0].to_multiset().count(x));
                assert(post_g[0].to_multiset().insert(pre_g[0][t]).count(x)
                    == pre_g[0].to_multiset().insert(loose).count(x));
            }
        );
    } else {
        lemma_col_shift_from_north_tiles(pre_g, post_g, t, loose, k - 1);
        lemma_rows_tiles_take(pre_g, k - 1);
        lemma_rows_tiles_take(post_g, k - 1);
        lemma_row_update_tiles(pre_g[k - 1], t, pre_g[k - 2][t]);
        assert_multisets_equal!(
            rows_tiles(post_g.take(k)).insert(pre_g[k - 1][t]),
            rows_tiles(pre_g.take(k)).insert(loose),
            x => {
                assert(rows_tiles(post_g.take(k)).count(x) == rows_tiles(post_g.take(k - 1)).count(
                    x,
                ) + post_g[k - 1].to_multiset().count(x));
                assert(rows_tiles(pre_g.take(k)).count(x) == rows_tiles(pre_g.take(k - 1)).count(x)
                    + pre_g[k - 1].to_multiset().count(x));
                assert(rows_tiles(post_g.take(k - 1)).insert(pre_g[k - 2][t]).count(x)
                    == rows_tiles(pre_g.take(k - 1)).insert(loose).count(x));
                assert(post_g[k - 1].to_multiset().insert(pre_g[k - 1][t]).count(x)
                    == pre_g[k - 1].to_multiset().insert(pre_g[k - 2][t]).count(x));
            }
        );
    }
}

/// Telescoping step for a column lane shifted one cell toward the north: the
/// first `k` rows of the two grids hold the same tiles once the tile leaving
/// at the top and the tile entering the prefix from below are exchanged.
proof fn lemma_col_shift_from_south_tiles(
    pre_g: Seq<Seq<Tile>>,
    post_g: Seq<Seq<Tile>>,
    t: int,
    loose: Tile,
    k: int,
)
    requires
        pre_g.len() == post_g.len(),
        pre_g.len() >= 1,
        forall|j: int| 0 <= j < pre_g.len() ==> 0 <= t < (#[trigger] pre_g[j]).len(),
        post_g[pre_g.len() - 1] == pre_g[pre_g.len() - 1].update(t, loose),
        forall|j: int|
            0 <= j < pre_g.len() - 1 ==> #[trigger] post_g[j] == pre_g[j].update(
                t,
                pre_g[j + 1][t],
            ),
        1 <= k <= pre_g.len(),
    ensures
        rows_tiles(post_g.take(k)).insert(pre_g[0][t]) == rows_tiles(pre_g.take(k)).insert(
            if k == pre_g.len() {
                loose
            } else {
                pre_g[k][t]
            },
        ),
    decreases k,
{
    broadcast use vstd::multiset::group_multiset_axioms;

    let h = pre_g.len() as int;
    if k == 1 {
        lemma_rows_tiles_take(pre_g, 0);
        lemma_rows_tiles_take(post_g, 0);
        assert(pre_g.take(0) =~= Seq::<Seq<Tile>>::empty());
        assert(post_g.take(0) =~= Seq::<Seq<Tile>>::empty());
        let v1 = if 1 == h {
            loose
        } else {
            pre_g[1][t]
        };
        lemma_row_update_tiles(pre_g[0], t, v1);
        assert(post_g[0] == pre_g[0].update(t, v1));
        assert_multisets_equal!(
            rows_tiles(post_g.take(1)).insert(pre_g[0][t]),
            rows_tiles(pre_g.take(1)).insert(v1),
            x => {
                assert(rows_tiles(post_g.take(1)).count(x) == post_g[0].to_multiset().count(x));
                assert(rows_tiles(pre_g.take(1)).count(x) == pre_g[0].to_multiset().count(x));
                assert(post_g[0].to_multiset().insert(pre_g[0][t]).count(x)
                    == pre_g[0].to_multiset().insert(v1).count(x));
            }
        );
    } else {
        lemma_col_shift_from_south_tiles(pre_g, post_g, t, loose, k - 1);
        lemma_rows_tiles_take(pre_g, k - 1);
        lemma_rows_tiles_take(post_g, k - 1);
        let vk = if k == h {
            loose
        } else {
            pre_g[k][t]
        };
        let vk1 = pre_g[k - 1][t];
        lemma_row_update_tiles(pre_g[k - 1], t, vk);
        assert(post_g[k - 1] == pre_g[k - 1].update(t, vk));
        assert_multisets_equal!(
            rows_tiles(post_g.take(k)).insert(pre_g[0][t]),
            rows_tiles(pre_g.take(k)).insert(vk),
            x => {
                assert(rows_tiles(post_g.take(k)).count(x) == rows_tiles(post_g.take(k - 1)).count(
                    x,
                ) + post_g[k - 1].to_multiset().count(x));
                assert(rows_tiles(pre_g.take(k)).count(x) == rows_tiles(pre_g.take(k - 1)).count(x)
                    + pre_g[k - 1].to_multiset().count(x));
                assert(rows_tiles(post_g.take(k - 1)).insert(pre_g[0][t]).count(x)
                    == rows_tiles(pre_g.take(k - 1)).insert(vk1).count(x));
                assert(post_g[k - 1].to_multiset().insert(pre_g[k - 1][t]).count(x)
                    == pre_g[k - 1].to_multiset().insert(vk).count(x));
            }
        );
    }
}

/// Shift conservation: an insertion moves exactly one tile off the grid and
/// one onto it, so the multiset of tiles resident on the board together with
/// the loose tile is unchanged.
pub proof fn lemma_inserted_tiles(pre: Board, post: Board, dir: Direction, g: int)
    requires
        pre.wf(),
        post.wf(),
        pre.slot_ok(dir, g),
        spec_inserted(pre, post, dir, g),
    ensures
        post.tiles() == pre.tiles(),
{
    broadcast use vstd::multiset::group_multiset_axioms;

    let t = 2 * g + 1;
    let h = pre.spec_height();
    let w = pre.spec_width();
    match dir {
        Direction::North => {
            assert(post.grid()[0] =~= pre.grid()[0].update(t, pre.loose_tile));
            assert forall|j: int| 1 <= j < h implies #[trigger] post.grid()[j] == pre.grid(
            )[j].update(t, pre.grid()[j - 1][t]) by {
                assert(post.grid()[j] =~= pre.grid()[j].update(t, pre.grid()[j - 1][t]));
            }
            lemma_col_shift_from_north_tiles(pre.grid(), post.grid(), t, pre.loose_tile, h);
            assert(pre.grid().take(h) =~= pre.grid());
            assert(post.grid().take(h) =~= post.grid());
            assert(post.loose_tile == pre.grid()[h - 1][t]);
            assert(post.tiles() == pre.tiles());
        },
        Direction::South => {
            assert(post.grid()[h - 1] =~= pre.grid()[h - 1].update(t, pre.loose_tile));
            assert forall|j: int| 0 <= j < h - 1 implies #[trigger] post.grid()[j] == pre.grid(
            )[j].update(t, pre.grid()[j + 1][t]) by {
                assert(post.grid()[j] =~= pre.grid()[j].update(t, pre.grid()[j + 1][t]));
            }
            lemma_col_shift_from_south_tiles(pre.grid(), post.grid(), t, pre.loose_tile, h);
            assert(pre.grid().take(h) =~= pre.grid());
            assert(post.grid().take(h) =~= post.grid());
            assert(post.loose_tile == pre.grid()[0][t]);
            assert(post.tiles() == pre.tiles());
        },
        Direction::West => {
            assert forall|a: int| 0 <= a < h && a != t implies post.grid()[a] == pre.grid()[a] by {
                assert(post.grid()[a] =~= pre.grid()[a]);
            }
            lemma_rows_tiles_update_one(pre.grid(), post.grid(), t);
            lemma_row_shift_from_west_tiles(pre.grid()[t], post.grid()[t], pre.loose_tile);
            assert(post.loose_tile == pre.grid()[t][w - 1]);
            assert_multisets_equal!(post.tiles(), pre.tiles(), x => {
                assert(rows_tiles(post.grid()).add(pre.grid()[t].to_multiset()).count(x)
                    == rows_tiles(pre.grid()).add(post.grid()[t].to_multiset()).count(x));
                assert(post.grid()[t].to_multiset().insert(pre.grid()[t][w - 1]).count(x)
                    == pre.grid()[t].to_multiset().insert(pre.loose_tile).count(x));
            });
        },
        Direction::East => {
            assert forall|a: int| 0 <= a < h && a != t implies post.grid()[a] == pre.grid()[a] by {
                assert(post.grid()[a] =~= pre.grid()[a]);
            }
            lemma_rows_tiles_update_one(pre.grid(), post.grid(), t);
            lemma_row_shift_from_east_tiles(pre.grid()[t], post.grid()[t], pre.loose_tile);
            assert(post.loose_tile == pre.grid()[t][0]);
            assert_multisets_equal!(post.tiles(), pre.tiles(), x => {
                assert(rows_tiles(post.grid()).add(pre.grid()[t].to_multiset()).count(x)
                    == rows_tiles(pre.grid()).add(post.grid()[t].to_multiset()).count(x));
                assert(post.grid()[t].to_multiset().insert(pre.grid()[t][0]).count(x)
                    == pre.grid()[t].to_multiset().insert(pre.loose_tile).count(x));
            });
        },
    }
}

/// The in-bounds coordinate pair that the mathematical pair `p` denotes.
pub open spec fn spec_coord(p: (int, int)) -> (usize, usize) {
    (p.0 as usize, p.1 as usize)
}

/// Whether the tile at in-bounds cell `p` opens a mutual passage one step in
/// direction `d`: the step stays on the grid, `p`'s tile has a passage
/// toward it, and the neighbor's tile has a passage back.
pub open spec fn spec_edge_step(b: Board, p: (int, int), d: Direction) -> bool {
    let q = spec_step(p.0, p.1, d);
    &&& b.in_bounds(p.0, p.1)
    &&& b.in_bounds(q.0, q.1)
    &&& b.grid()[p.0][p.1].spec_has_path(d)
    &&& b.grid()[q.0][q.1].spec_has_path(d.spec_opposite())
}

/// The mutual-passage adjacency relation: `q` is one step from `p` and the
/// two tiles open passages toward each other.
pub open spec fn spec_edge(b: Board, p: (int, int), q: (int, int)) -> bool {
    exists|d: Direction| #[trigger] spec_edge_step(b, p, d) && q == spec_step(p.0, p.1, d)
}

/// A passage path: a non-empty run of in-bounds cells, each joined to the
/// next by a mutual passage.
pub open spec fn spec_is_path(b: Board, path: Seq<(int, int)>) -> bool {
    &&& path.len() >= 1
    &&& b.in_bounds(path[0].0, path[0].1)
    &&& forall|n: int| 0 <= n < path.len() - 1 ==> spec_edge(b, #[trigger] path[n], path[n + 1])
}

/// Whether cell `to` can be reached from cell `from` along mutual passages.
pub open spec fn spec_reaches(b: Board, from: (int, int), to: (int, int)) -> bool {
    exists|path: Seq<(int, int)>|
        #[trigger] spec_is_path(b, path) && path.first() == from && path.last() == to
}

/// The connected component of `from` under the mutual-passage relation.
pub open spec fn spec_reachable_set(b: Board, from: (int, int)) -> Set<(int, int)> {
    Set::new(|c: (int, int)| spec_reaches(b, from, c))
}

/// A set of cells with no passage leading out of it: every mutual passage
/// from a member leads to a member.
spec fn spec_closed(b: Board, s: Set<(usize, usize)>) -> bool {
    forall|c: (usize, usize), d: Direction|
        s.contains(c) && #[trigger] spec_edge_step(b, (c.0 as int, c.1 as int), d)
            ==> s.contains(spec_coord(spec_step(c.0 as int, c.1 as int, d)))
}

/// Every cell is in bounds along a path.
proof fn lemma_path_cells_in_bounds(b: Board, path: Seq<(int, int)>, n: int)
    requires
        spec_is_path(b, path),
        0 <= n < path.len(),
    ensures
        b.in_bounds(path[n].0, path[n].1),
    decreases n,
{
    if n > 0 {
        lemma_path_cells_in_bounds(b, path, n - 1);
        assert(spec_edge(b, path[n - 1], path[n]));
        let d = choose|d: Direction|
            #[trigger] spec_edge_step(b, path[n - 1], d) && path[n] == spec_step(
                path[n - 1].0,
                path[n - 1].1,
                d,
            );
    }
}

/// Reachability is reflexive: every in-bounds cell reaches itself, by the
/// path of one cell, whatever its passages.
pub proof fn lemma_reaches_refl(b: Board, p: (int, int))
    requires
        b.in_bounds(p.0, p.1),
    ensures
        spec_reaches(b, p, p),
{
    let path = seq![p];
    assert(spec_is_path(b, path));
    assert(path.first() == p && path.last() == p);
}

/// Extending a reachable cell by one mutual passage stays reachable.
proof fn lemma_reaches_step(b: Board, a: (int, int), p: (int, int), q: (int, int))
    requires
        spec_reaches(b, a, p),
        spec_edge(b, p, q),
    ensures
        spec_reaches(b, a, q),
{
    let path = choose|path: Seq<(int, int)>|
        #[trigger] spec_is_path(b, path) && path.first() == a && path.last() == p;
    let longer = path.push(q);
    assert forall|n: int| 0 <= n < longer.len() - 1 implies spec_edge(
        b,
        #[trigger] longer[n],
        longer[n + 1],
    ) by {
        if n < path.len() - 1 {
            assert(spec_edge(b, path[n], path[n + 1]));
        } else {
            assert(longer[n] == p && longer[n + 1] == q);
        }
    }
    assert(spec_is_path(b, longer));
    assert(longer.first() == a && longer.last() == q);
}

/// One hop is symmetric: a mutual passage from `p` to `q` is also a mutual
/// passage from `q` back to `p`, because connectivity is tested in both
/// directions by construction.
pub proof fn lemma_edge_symmetric(b: Board, p: (int, int), q: (int, int))
    requires
        spec_edge(b, p, q),
    ensures
        spec_edge(b, q, p),
{
    let d = choose|d: Direction|
        #[trigger] spec_edge_step(b, p, d) && q == spec_step(p.0, p.1, d);
    assert(spec_edge_step(b, q, d.spec_opposite()));
    assert(p == spec_step(q.0, q.1, d.spec_opposite()));
}

/// Reachability is transitive: paths concatenate.
pub proof fn lemma_reaches_trans(b: Board, a: (int, int), m: (int, int), c: (int, int))
    requires
        spec_reaches(b, a, m),
        spec_reaches(b, m, c),
    ensures
        spec_reaches(b, a, c),
{
    let p1 = choose|path: Seq<(int, int)>|
        #[trigger] spec_is_path(b, path) && path.first() == a && path.last() == m;
    let p2 = choose|path: Seq<(int, int)>|
        #[trigger] spec_is_path(b, path) && path.first() == m && path.last() == c;
    let joined = p1 + p2.drop_first();
    if p2.len() == 1 {
        assert(joined =~= p1);
        assert(spec_is_path(b, joined) && joined.first() == a && joined.last() == c);
    } else {
        assert forall|n: int| 0 <= n < joined.len() - 1 implies spec_edge(
            b,
            #[trigger] joined[n],
            joined[n + 1],
        ) by {
            if n < p1.len() - 1 {
                assert(spec_edge(b, p1[n], p1[n + 1]));
                assert(joined[n] == p1[n] && joined[n + 1] == p1[n + 1]);
            } else if n == p1.len() - 1 {
                assert(spec_edge(b, p2[0], p2[1]));
                assert(joined[n] == p1[p1.len() - 1] && p1[p1.len() - 1] == p2[0]);
                assert(joined[n + 1] == p2[1]);
            } else {
                let k = n - p1.len() + 1;
                assert(spec_edge(b, p2[k], p2[k + 1]));
                assert(joined[n] == p2[k] && joined[n + 1] == p2[k + 1]);
            }
        }
        assert(spec_is_path(b, joined));
        assert(joined.first() == a && joined.last() == c);
    }
}

/// Reachability is symmetric: a path read backwards is again a path, hop by
/// hop, because each hop is symmetric.
pub proof fn lemma_reaches_symmetric(b: Board, a: (int, int), c: (int, int))
    requires
        spec_reaches(b, a, c),
    ensures
        spec_reaches(b, c, a),
{
    let path = choose|path: Seq<(int, int)>|
        #[trigger] spec_is_path(b, path) && path.first() == a && path.last() == c;
    let rev = path.reverse();
    let len = path.len() as int;
    assert(rev[0] == path[len - 1]);
    lemma_path_cells_in_bounds(b, path, len - 1);
    assert forall|n: int| 0 <= n < rev.len() - 1 implies spec_edge(
        b,
        #[trigger] rev[n],
        rev[n + 1],
    ) by {
        assert(rev[n] == path[len - 1 - n]);
        assert(rev[n + 1] == path[len - 2 - n]);
        assert(spec_edge(b, path[len - 2 - n], path[len - 1 - n]));
        lemma_edge_symmetric(b, path[len - 2 - n], path[len - 1 - n]);
    }
    assert(spec_is_path(b, rev));
    assert(rev.first() == c && rev.last() == a);
}

/// A closed set that holds the start of a path holds its end.
proof fn lemma_path_in_closed(b: Board, s: Set<(usize, usize)>, path: Seq<(int, int)>)
    requires
        spec_is_path(b, path),
        spec_closed(b, s),
        s.contains(spec_coord(path[0])),
    ensures
        s.contains(spec_coord(path[path.len() - 1])),
    decreases path.len(),
{
    if path.len() > 1 {
        let shorter = path.drop_last();
        assert forall|n: int| 0 <= n < shorter.len() - 1 implies spec_edge(
            b,
            #[trigger] shorter[n],
            shorter[n + 1],
        ) by {
            assert(spec_edge(b, path[n], path[n + 1]));
        }
        assert(spec_is_path(b, shorter));
        lemma_path_in_closed(b, s, shorter);
        let len = path.len() as int;
        let p = path[len - 2];
        let q = path[len - 1];
        assert(spec_edge(b, p, q));
        let d = choose|d: Direction| #[trigger] spec_edge_step(b, p, d) && q == spec_step(p.0, p.1, d);
        lemma_path_cells_in_bounds(b, path, len - 2);
        assert(b.cells@.len() == vstd::std_specs::vec::spec_vec_len(&b.cells));
        assert(b.cells@[0]@.len() == vstd::std_specs::vec::spec_vec_len(&b.cells@[0]));
        assert(b.grid()[0] == b.cells@[0]@);
        assert(spec_coord(p).0 as int == p.0 && spec_coord(p).1 as int == p.1);
        assert(spec_edge_step(b, (spec_coord(p).0 as int, spec_coord(p).1 as int), d));
        assert(s.contains(spec_coord(spec_step(p.0, p.1, d))));
    }
}

/// The reachable set is a true closure: any member of a component has the
/// same component, so querying reachability from any member of
/// `reachable_coords`' result gives the same set back.
pub proof fn lemma_reachable_closure(b: Board, a: (int, int), m: (int, int))
    requires
        spec_reaches(b, a, m),
    ensures
        spec_reachable_set(b, m) == spec_reachable_set(b, a),
{
    assert(spec_reachable_set(b, m) =~= spec_reachable_set(b, a)) by {
        assert forall|c: (int, int)| spec_reachable_set(b, m).contains(c) implies
            spec_reachable_set(b, a).contains(c) by {
            lemma_reaches_trans(b, a, m, c);
        }
        assert forall|c: (int, int)| spec_reachable_set(b, a).contains(c) implies
            spec_reachable_set(b, m).contains(c) by {
            lemma_reaches_symmetric(b, a, m);
            lemma_reaches_trans(b, m, a, c);
        }
    }
}

/// All coordinates of an `h` by `w` grid whose row sits at `j`.
spec fn spec_coords_row(j: int, w: int) -> Set<(usize, usize)> {
    Set::new(|c: (usize, usize)| c.0 as int == j && (c.1 as int) < w)
}

/// The row strip holds one coordinate per column.
proof fn lemma_coords_row_len(j: int, w: int)
    requires
        0 <= j <= usize::MAX,
        0 <= w <= usize::MAX,
    ensures
        spec_coords_row(j, w).finite(),
        spec_coords_row(j, w).len() == w,
    decreases w,
{
    if w == 0 {
        assert(spec_coords_row(j, w) =~= Set::<(usize, usize)>::empty());
    } else {
        lemma_coords_row_len(j, w - 1);
        let c = (j as usize, (w - 1) as usize);
        assert(!spec_coords_row(j, w - 1).contains(c));
        assert(spec_coords_row(j, w) =~= spec_coords_row(j, w - 1).insert(c));
    }
}

/// All in-bounds coordinates of an `h` by `w` grid.
spec fn spec_coords_rect(h: int, w: int) -> Set<(usize, usize)> {
    Set::new(|c: (usize, usize)| (c.0 as int) < h && (c.1 as int) < w)
}

/// An `h` by `w` grid has exactly `h * w` coordinates.
proof fn lemma_coords_rect_len(h: int, w: int)
    requires
        0 <= h <= usize::MAX,
        0 <= w <= usize::MAX,
    ensures
        spec_coords_rect(h, w).finite(),
        spec_coords_rect(h, w).len() == h * w,
    decreases h,
{
    if h == 0 {
        assert(spec_coords_rect(h, w) =~= Set::<(usize, usize)>::empty());
        assert(h * w == 0);
    } else {
        lemma_coords_rect_len(h - 1, w);
        lemma_coords_row_len(h - 1, w);
        assert(spec_coords_rect(h, w) =~= spec_coords_rect(h - 1, w) + spec_coords_row(h - 1, w));
        assert(spec_coords_rect(h - 1, w).disjoint(spec_coords_row(h - 1, w)));
        vstd::set_lib::lemma_set_disjoint_lens(spec_coords_rect(h - 1, w), spec_coords_row(h - 1, w));
        assert((h - 1) * w + w == h * w) by (nonlinear_arith);
    }
}

/// The fixed corner piece with the given orientation: an L shape whose two
/// passages hug the two adjacent board edges.
pub open spec fn spec_corner_tile(orient: Direction) -> Tile {
    Tile { shape: Shape::L, orientation: orient, whose_target: None }
}

/// The starting corner assigned to the player of the given rank: first
/// player top-left, second bottom-right, third top-right, fourth bottom-left.
pub open spec fn spec_start_position(rank: int, width: int, height: int) -> (int, int) {
    if rank == 0 {
        (0, 0)
    } else if rank == 1 {
        (height - 1, width - 1)
    } else if rank == 2 {
        (0, width - 1)
    } else {
        (height - 1, 0)
    }
}

/// Corner invariant: on any board whose corners hold the fixed L pieces,
/// each corner has exactly two passages, mutually perpendicular and pointing
/// into the board; the two edge-facing directions are walls.
pub proof fn lemma_corner_passages(b: Board)
    requires
        b.wf(),
        b.corners_fixed(),
    ensures
        b.grid()[0][0].spec_has_path(Direction::East),
        b.grid()[0][0].spec_has_path(Direction::South),
        !b.grid()[0][0].spec_has_path(Direction::North),
        !b.grid()[0][0].spec_has_path(Direction::West),
        b.grid()[0][b.spec_width() - 1].spec_has_path(Direction::South),
        b.grid()[0][b.spec_width() - 1].spec_has_path(Direction::West),
        !b.grid()[0][b.spec_width() - 1].spec_has_path(Direction::North),
        !b.grid()[0][b.spec_width() - 1].spec_has_path(Direction::East),
        b.grid()[b.spec_height() - 1][0].spec_has_path(Direction::North),
        b.grid()[b.spec_height() - 1][0].spec_has_path(Direction::East),
        !b.grid()[b.spec_height() - 1][0].spec_has_path(Direction::South),
        !b.grid()[b.spec_height() - 1][0].spec_has_path(Direction::West),
        b.grid()[b.spec_height() - 1][b.spec_width() - 1].spec_has_path(Direction::West),
        b.grid()[b.spec_height() - 1][b.spec_width() - 1].spec_has_path(Direction::North),
        !b.grid()[b.spec_height() - 1][b.spec_width() - 1].spec_has_path(Direction::South),
        !b.grid()[b.spec_height() - 1][b.spec_width() - 1].spec_has_path(Direction::East),
{
}

/// The set of ids on a player roster.
pub open spec fn spec_player_ids(players: Seq<Player>) -> Set<PlayerID> {
    Set::new(|id: PlayerID| exists|q: int| 0 <= q < players.len() && players[q].id == id)
}

/// The token map a fresh board carries: exactly one token per participating
/// player, at the starting corner the player's place on the ascending-id
/// roster selects, with no score yet.
pub open spec fn spec_tokens_assigned(
    tokens: Map<PlayerID, PlayerToken>,
    players: Seq<Player>,
    width: int,
    height: int,
) -> bool {
    &&& tokens.dom() == spec_player_ids(players)
    &&& forall|q: int|
        0 <= q < players.len() ==> tokens[(#[trigger] players[q]).id].player_id == players[q].id
    &&& forall|q: int| 0 <= q < players.len() ==> tokens[(#[trigger] players[q]).id].score == 0
    &&& forall|q: int|
        0 <= q < players.len() ==> (tokens[(#[trigger] players[q]).id].position.0 as int,
        tokens[players[q].id].position.1 as int) == spec_start_position(q, width, height)
}

/// A player's token on the board.
pub struct PlayerToken {
    /// ID of the player the token is for.
    pub player_id: PlayerID,
    /// Position of the token as `(row, col)`, always an in-bounds grid cell.
    pub position: (usize, usize),
    /// Number of goals this player has collected.
    pub score: u32,
}

impl PlayerToken {
    /// Create a new token for the given player at the given position.
    pub fn new(player: &Player, position: (usize, usize)) -> (t: PlayerToken)
        ensures
            t.player_id == player.id,
            t.position == position,
            t.score == 0,
    {
        PlayerToken { player_id: player.id, position, score: 0 }
    }
}

/// The board state: the tile grid, the one loose tile, the staged insertion
/// slot, and the player tokens.
pub struct Board {
    /// The grid of tiles, indexed row first.  Read it through `get` and
    /// write it through `set`: both keep the coordinates honest.
    pub cells: Vec<Vec<Tile>>,
    /// The one spare tile not currently on the grid.
    pub loose_tile: Tile,
    /// The edge slot the loose tile is staged to enter, as a direction (the
    /// edge it enters from) and a guide index, or `None` outside the
    /// insertion phase.
    pub loose_tile_position: Option<(Direction, usize)>,
    /// The player tokens, keyed by player id.
    pub player_tokens: BTreeMap<PlayerID, PlayerToken>,
}

impl Board {
    /// The grid as a mathematical sequence of rows.
    pub open spec fn grid(&self) -> Seq<Seq<Tile>> {
        self.cells@.map_values(|row: Vec<Tile>| row@)
    }

    /// Number of rows.
    pub open spec fn spec_height(&self) -> int {
        self.grid().len() as int
    }

    /// Number of columns.
    pub open spec fn spec_width(&self) -> int {
        self.grid()[0].len() as int
    }

    /// Well-formedness of the grid: both dimensions odd and at least five,
    /// and every row of the full width.
    pub open spec fn wf(&self) -> bool {
        &&& self.spec_height() >= 5
        &&& self.spec_width() >= 5
        &&& self.spec_height() % 2 == 1
        &&& self.spec_width() % 2 == 1
        &&& forall|j: int|
            0 <= j < self.spec_height() ==> (#[trigger] self.grid()[j]).len() == self.spec_width()
    }

    /// Gets a cell from the board; the index is `[col, row]`.
    pub fn get(&self, ind: [usize; 2]) -> (t: &Tile)
        requires
            self.wf(),
            ind[0] < self.spec_width(),
            ind[1] < self.spec_height(),
        ensures
            *t == self.grid()[ind[1] as int][ind[0] as int],
    {
        &self.cells[ind[1]][ind[0]]
    }

    /// Gets the width of the board.
    pub fn width(&self) -> (w: usize)
        requires
            self.wf(),
        ensures
            w == self.spec_width(),
    {
        self.cells[0].len()
    }

    /// Gets the height of the board.
    pub fn height(&self) -> (h: usize)
        requires
            self.wf(),
        ensures
            h == self.spec_height(),
    {
        self.cells.len()
    }

    /// Every tile this board owns: the grid contents plus the loose tile.
    pub open spec fn tiles(&self) -> Multiset<Tile> {
        rows_tiles(self.grid()).insert(self.loose_tile)
    }

    /// The four corner cells hold the four fixed L pieces, each oriented so
    /// its two passages point into the board.
    pub open spec fn corners_fixed(&self) -> bool {
        &&& self.grid()[0][0] == spec_corner_tile(Direction::East)
        &&& self.grid()[0][self.spec_width() - 1] == spec_corner_tile(Direction::South)
        &&& self.grid()[self.spec_height() - 1][0] == spec_corner_tile(Direction::North)
        &&& self.grid()[self.spec_height() - 1][self.spec_width() - 1] == spec_corner_tile(
            Direction::West,
        )
    }

    /// Every token names its owner under its own key and sits on an
    /// in-bounds cell.
    pub open spec fn tokens_ok(&self) -> bool {
        forall|id: PlayerID|
            #[trigger] self.player_tokens@.contains_key(id) ==> self.player_tokens@[id].player_id
                == id && self.in_bounds(
                self.player_tokens@[id].position.0 as int,
                self.player_tokens@[id].position.1 as int,
            )
    }

    /// Creates a new board: a grid of random tiles with the four corners
    /// overwritten by the fixed L pieces, one random loose tile, no staged
    /// insertion slot, and one token per player at the starting corner its
    /// rank selects.  The roster must come sorted by strictly ascending
    /// player id, so a player's index is its rank.
    pub fn new(
        width: usize,
        height: usize,
        players: &Vec<Player>,
        rng: &mut rand::rngs::StdRng,
    ) -> (b: Board)
        requires
            width >= 5,
            height >= 5,
            width % 2 == 1,
            height % 2 == 1,
            players@.len() <= 4,
            forall|q1: int, q2: int|
                0 <= q1 < q2 < players@.len() ==> (#[trigger] players@[q1]).id < (
                #[trigger] players@[q2]).id,
        ensures
            b.wf(),
            b.spec_width() == width,
            b.spec_height() == height,
            b.corners_fixed(),
            b.loose_tile_position is None,
            spec_playable_tile(b.loose_tile),
            b.loose_tile.whose_target is None,
            forall|j: int, i: int|
                b.in_bounds(j, i) && !((j == 0 || j == b.spec_height() - 1) && (i == 0 || i
                    == b.spec_width() - 1)) ==> spec_playable_tile(#[trigger] b.grid()[j][i]),
            spec_tokens_assigned(b.player_tokens@, players@, width as int, height as int),
            b.tokens_ok(),
    {
        broadcast use vstd::std_specs::btree::group_btree_axioms;

        let mut cells: Vec<Vec<Tile>> = Vec::new();
        for j in 0..height
            invariant
                cells@.len() == j,
                forall|r: int| 0 <= r < j ==> (#[trigger] cells@[r])@.len() == width,
                forall|r: int, c: int|
                    0 <= r < j && 0 <= c < width ==> spec_playable_tile(
                        #[trigger] cells@[r]@[c],
                    ),
        {
            let mut row: Vec<Tile> = Vec::new();
            for i in 0..width
                invariant
                    row@.len() == i,
                    forall|c: int| 0 <= c < i ==> spec_playable_tile(#[trigger] row@[c]),
            {
                let t = Tile::random(rng);
                row.push(t);
            }
            cells.push(row);
        }

        let mut player_tokens: BTreeMap<PlayerID, PlayerToken> = BTreeMap::new();
        let player_count = players.len();
        for n in 0..player_count
            invariant
                width >= 5,
                height >= 5,
                player_count == players@.len(),
                players@.len() <= 4,
                forall|q1: int, q2: int|
                    0 <= q1 < q2 < players@.len() ==> (#[trigger] players@[q1]).id < (
                    #[trigger] players@[q2]).id,
                forall|k: PlayerID|
                    #[trigger] player_tokens@.contains_key(k) ==> exists|q: int|
                        #![auto]
                        0 <= q < n && players@[q].id == k,
                forall|q: int|
                    0 <= q < n ==> player_tokens@.contains_key((#[trigger] players@[q]).id),
                forall|q: int|
                    0 <= q < n ==> player_tokens@[(#[trigger] players@[q]).id].player_id
                        == players@[q].id,
                forall|q: int|
                    0 <= q < n ==> player_tokens@[(#[trigger] players@[q]).id].score == 0,
                forall|q: int|
                    0 <= q < n ==> (player_tokens@[(#[trigger] players@[q]).id].position.0 as int,
                    player_tokens@[players@[q].id].position.1 as int) == spec_start_position(
                        q,
                        width as int,
                        height as int,
                    ),
        {
            let position = if n == 0 {
                (0usize, 0usize)
            } else if n == 1 {
                (height - 1, width - 1)
            } else if n == 2 {
                (0usize, width - 1)
            } else {
                (height - 1, 0usize)
            };
            let player = &players[n];
            let token = PlayerToken::new(player, position);
            player_tokens.insert(player.id, token);
        }

        let loose = Tile::random(rng);
        let mut b = Board { cells, loose_tile: loose, loose_tile_position: None, player_tokens };
        proof {
            assert(b.grid()[0].len() == width);
            assert(b.wf());
            assert(b.player_tokens@.dom() =~= spec_player_ids(players@)) by {
                assert forall|id: PlayerID| spec_player_ids(players@).contains(id) implies
                    b.player_tokens@.contains_key(id) by {
                    let q = choose|q: int| 0 <= q < players@.len() && players@[q].id == id;
                };
            }
            assert(spec_tokens_assigned(b.player_tokens@, players@, width as int, height as int));
            assert forall|id: PlayerID| #[trigger] b.player_tokens@.contains_key(id) implies
                b.player_tokens@[id].player_id == id && b.in_bounds(
                b.player_tokens@[id].position.0 as int,
                b.player_tokens@[id].position.1 as int,
            ) by {
                let q = choose|q: int| #![auto] 0 <= q < players@.len() && players@[q].id == id;
            }
            assert(b.tokens_ok());
        }
        b.set([0, 0], Tile { shape: Shape::L, orientation: Direction::East, whose_target: None });
        b.set(
            [width - 1, 0],
            Tile { shape: Shape::L, orientation: Direction::South, whose_target: None },
        );
        b.set(
            [0, height - 1],
            Tile { shape: Shape::L, orientation: Direction::North, whose_target: None },
        );
        b.set(
            [width - 1, height - 1],
            Tile { shape: Shape::L, orientation: Direction::West, whose_target: None },
        );
        b
    }

    /// Visits the four neighbors of `cur`: every cell joined to `cur` by a
    /// mutual passage and not seen yet is added to the visited set and the
    /// worklist, each addition paired.
    fn expand_cell(
        &self,
        cur: (usize, usize),
        result: &mut BTreeSet<(usize, usize)>,
        frontier: &mut Vec<(usize, usize)>,
        Ghost(fm): Ghost<(int, int)>,
    )
        requires
            self.wf(),
            old(result)@.finite(),
            old(result)@.contains(cur),
            forall|c: (usize, usize)| #[trigger]
                old(result)@.contains(c) ==> (c.0 as int) < self.spec_height() && (c.1 as int)
                    < self.spec_width(),
            forall|c: (usize, usize)| #[trigger]
                old(result)@.contains(c) ==> spec_reaches(*self, fm, (c.0 as int, c.1 as int)),
            forall|n: int|
                0 <= n < old(frontier)@.len() ==> old(result)@.contains(
                    #[trigger] old(frontier)@[n],
                ),
        ensures
            final(result)@.finite(),
            forall|c: (usize, usize)| #[trigger]
                old(result)@.contains(c) ==> final(result)@.contains(c),
            forall|c: (usize, usize)| #[trigger]
                old(frontier)@.contains(c) ==> final(frontier)@.contains(c),
            forall|c: (usize, usize)| #[trigger]
                final(result)@.contains(c) ==> (c.0 as int) < self.spec_height() && (c.1 as int)
                    < self.spec_width(),
            forall|c: (usize, usize)| #[trigger]
                final(result)@.contains(c) ==> spec_reaches(*self, fm, (c.0 as int, c.1 as int)),
            forall|n: int|
                0 <= n < final(frontier)@.len() ==> final(result)@.contains(
                    #[trigger] final(frontier)@[n],
                ),
            forall|c: (usize, usize)| #[trigger]
                final(result)@.contains(c) && !old(result)@.contains(c)
                    ==> final(frontier)@.contains(c),
            final(result)@.len() - old(result)@.len()
                == final(frontier)@.len() - old(frontier)@.len(),
            final(result)@.len() >= old(result)@.len(),
            forall|d: Direction|
                #[trigger] spec_edge_step(*self, (cur.0 as int, cur.1 as int), d)
                    ==> final(result)@.contains(
                        spec_coord(spec_step(cur.0 as int, cur.1 as int, d)),
                    ),
    {
        broadcast use vstd::std_specs::btree::group_btree_axioms;
        broadcast use vstd::laws_cmp::group_laws_cmp;
        broadcast use vstd::seq_lib::lemma_seq_contains_after_push;

        let ghost cc: (int, int) = (cur.0 as int, cur.1 as int);
        let ghost r0 = old(result)@;
        let ghost f0 = old(frontier)@;
        let h = self.height();
        let w = self.width();
        let dirs = [Direction::North, Direction::South, Direction::East, Direction::West];
        for di in 0..4usize
            invariant
                self.wf(),
                self.spec_height() == h,
                self.spec_width() == w,
                dirs@.len() == 4,
                dirs@[0] == Direction::North,
                dirs@[1] == Direction::South,
                dirs@[2] == Direction::East,
                dirs@[3] == Direction::West,
                cc == (cur.0 as int, cur.1 as int),
                result@.finite(),
                result@.contains(cur),
                forall|c: (usize, usize)| #[trigger] r0.contains(c) ==> result@.contains(c),
                forall|c: (usize, usize)| #[trigger] f0.contains(c) ==> frontier@.contains(c),
                forall|c: (usize, usize)| #[trigger]
                    result@.contains(c) ==> (c.0 as int) < h && (c.1 as int) < w,
                forall|c: (usize, usize)| #[trigger]
                    result@.contains(c) ==> spec_reaches(*self, fm, (c.0 as int, c.1 as int)),
                forall|n: int|
                    0 <= n < frontier@.len() ==> result@.contains(#[trigger] frontier@[n]),
                forall|c: (usize, usize)| #[trigger]
                    result@.contains(c) && !r0.contains(c) ==> frontier@.contains(c),
                result@.len() - r0.len() == frontier@.len() - f0.len(),
                result@.len() >= r0.len(),
                forall|k: int|
                    0 <= k < di ==> (#[trigger] spec_edge_step(*self, cc, dirs@[k])
                        ==> result@.contains(spec_coord(spec_step(cc.0, cc.1, dirs@[k])))),
        {
            let dir = dirs[di];
            proof {
                assert(self.grid()[cc.0] == self.cells@[cc.0]@);
                assert(self.grid()[cc.0].len() == w);
                assert(self.cells@.len() == h);
            }
            if self.cells[cur.0][cur.1].has_path(dir) && self.valid((cur.0, cur.1), dir) {
                let next = step((cur.0, cur.1), dir);
                proof {
                    assert((next.0 as int, next.1 as int) == spec_step(cc.0, cc.1, dir));
                    assert((next.0 as int) < h && (next.1 as int) < w);
                    assert(self.grid()[next.0 as int] == self.cells@[next.0 as int]@);
                    assert(self.grid()[next.0 as int].len() == w);
                }
                if self.cells[next.0][next.1].has_path(dir.opposite()) {
                    proof {
                        assert(spec_edge_step(*self, cc, dir));
                        assert(spec_coord(spec_step(cc.0, cc.1, dir)) == next);
                    }
                    if !result.contains(&next) {
                        let ghost frontier_old = frontier@;
                        result.insert(next);
                        frontier.push(next);
                        proof {
                            assert(spec_edge(*self, cc, (next.0 as int, next.1 as int)));
                            lemma_reaches_step(*self, fm, cc, (next.0 as int, next.1 as int));
                            assert(frontier@[frontier@.len() - 1] == next);
                            assert(frontier@.contains(next));
                            assert forall|c: (usize, usize)| #[trigger]
                                frontier_old.contains(c) implies frontier@.contains(c) by {
                                let n = choose|n: int|
                                    0 <= n < frontier_old.len() && frontier_old[n] == c;
                                assert(frontier@[n] == c);
                            }
                        }
                    }
                }
            }
            proof {
                assert(spec_edge_step(*self, cc, dirs@[di as int]) ==> result@.contains(
                    spec_coord(spec_step(cc.0, cc.1, dirs@[di as int])),
                )) by {
                    if spec_edge_step(*self, cc, dirs@[di as int]) {
                        assert(self.spec_valid(cc.0, cc.1, dirs@[di as int]));
                    }
                }
            }
        }
        proof {
            assert forall|d: Direction| #[trigger]
                spec_edge_step(*self, cc, d) implies result@.contains(
                spec_coord(spec_step(cc.0, cc.1, d)),
            ) by {
                match d {
                    Direction::North => assert(d == dirs@[0]),
                    Direction::South => assert(d == dirs@[1]),
                    Direction::East => assert(d == dirs@[2]),
                    Direction::West => assert(d == dirs@[3]),
                }
            }
        }
    }

    /// Gets all the coordinates reachable from the given `(row, col)`: the
    /// cells connected to `from` by repeatedly crossing mutually validated
    /// passages, the start cell always among them.  Exactly the connected
    /// component of `from` comes back, as an order-irrelevant set.
    pub fn reachable_coords(&self, from: (usize, usize)) -> (r: BTreeSet<(usize, usize)>)
        requires
            self.wf(),
            (from.0 as int) < self.spec_height(),
            (from.1 as int) < self.spec_width(),
        ensures
            forall|c: (usize, usize)| #[trigger]
                r@.contains(c) <==> spec_reaches(
                    *self,
                    (from.0 as int, from.1 as int),
                    (c.0 as int, c.1 as int),
                ),
            r@.contains(from),
    {
        broadcast use vstd::std_specs::btree::group_btree_axioms;
        broadcast use vstd::laws_cmp::group_laws_cmp;
        broadcast use vstd::seq_lib::lemma_seq_contains_after_push;

        let ghost fm: (int, int) = (from.0 as int, from.1 as int);
        let h = self.height();
        let w = self.width();
        let mut result: BTreeSet<(usize, usize)> = BTreeSet::new();
        let mut frontier: Vec<(usize, usize)> = Vec::new();
        result.insert(from);
        frontier.push(from);
        proof {
            lemma_reaches_refl(*self, fm);
            lemma_coords_rect_len(h as int, w as int);
            assert(result@.subset_of(spec_coords_rect(h as int, w as int)));
            vstd::set_lib::lemma_len_subset(result@, spec_coords_rect(h as int, w as int));
            assert(frontier@[0] == from);
            assert(frontier@.contains(from));
        }
        while frontier.len() > 0
            invariant
                self.wf(),
                self.spec_height() == h,
                self.spec_width() == w,
                fm == (from.0 as int, from.1 as int),
                (from.0 as int) < h,
                (from.1 as int) < w,
                result@.finite(),
                result@.contains(from),
                result@.len() <= (h as int) * (w as int),
                forall|c: (usize, usize)| #[trigger]
                    result@.contains(c) ==> (c.0 as int) < h && (c.1 as int) < w,
                forall|c: (usize, usize)| #[trigger]
                    result@.contains(c) ==> spec_reaches(*self, fm, (c.0 as int, c.1 as int)),
                forall|n: int| 0 <= n < frontier@.len() ==> result@.contains(#[trigger] frontier@[n]),
                forall|c: (usize, usize), d: Direction|
                    result@.contains(c) && !frontier@.contains(c) && #[trigger] spec_edge_step(
                        *self,
                        (c.0 as int, c.1 as int),
                        d,
                    ) ==> result@.contains(spec_coord(spec_step(c.0 as int, c.1 as int, d))),
            decreases (h as int) * (w as int) - result@.len() + frontier@.len(),
        {
            let ghost frontier_pre = frontier@;
            let cur = match frontier.pop() {
                Some(c) => c,
                None => vstd::pervasive::unreached(),
            };
            let ghost frontier_popped = frontier@;
            let ghost result_before = result@;
            let ghost cc: (int, int) = (cur.0 as int, cur.1 as int);
            proof {
                assert(frontier_pre[frontier_pre.len() - 1] == cur);
                assert(result@.contains(cur));
                assert forall|c: (usize, usize)| #[trigger]
                    frontier_pre.contains(c) implies frontier_popped.contains(c) || c == cur by {
                    let n = choose|n: int| 0 <= n < frontier_pre.len() && frontier_pre[n] == c;
                    if n < frontier_pre.len() - 1 {
                        assert(frontier_popped[n] == c);
                    }
                }
                assert forall|c: (usize, usize)| #[trigger]
                    frontier_popped.contains(c) implies frontier_pre.contains(c) by {
                    let n = choose|n: int| 0 <= n < frontier_popped.len() && frontier_popped[n]
                        == c;
                    assert(frontier_pre[n] == c);
                }
            }
            self.expand_cell(cur, &mut result, &mut frontier, Ghost(fm));
            proof {
                lemma_coords_rect_len(h as int, w as int);
                assert(result@.subset_of(spec_coords_rect(h as int, w as int)));
                vstd::set_lib::lemma_len_subset(result@, spec_coords_rect(h as int, w as int));
                assert forall|c: (usize, usize), d: Direction|
                    result@.contains(c) && !frontier@.contains(c) && #[trigger] spec_edge_step(
                        *self,
                        (c.0 as int, c.1 as int),
                        d,
                    ) implies result@.contains(
                    spec_coord(spec_step(c.0 as int, c.1 as int, d)),
                ) by {
                    if c != cur {
                        if result_before.contains(c) {
                            assert(!frontier_popped.contains(c));
                            assert(!frontier_pre.contains(c));
                            assert(result_before.contains(
                                spec_coord(spec_step(c.0 as int, c.1 as int, d)),
                            ));
                        } else {
                            assert(frontier@.contains(c));
                        }
                    }
                }
            }
        }
        proof {
            assert(frontier@.len() == 0);
            assert(spec_closed(*self, result@)) by {
                assert forall|c: (usize, usize), d: Direction|
                    result@.contains(c) && #[trigger] spec_edge_step(
                        *self,
                        (c.0 as int, c.1 as int),
                        d,
                    ) implies result@.contains(
                    spec_coord(spec_step(c.0 as int, c.1 as int, d)),
                ) by {
                    assert(!frontier@.contains(c));
                }
            }
            assert forall|c: (usize, usize)|
                spec_reaches(*self, fm, (c.0 as int, c.1 as int)) implies result@.contains(
                c,
            ) by {
                let path = choose|path: Seq<(int, int)>|
                    #[trigger] spec_is_path(*self, path) && path.first() == fm && path.last() == (
                    c.0 as int,
                    c.1 as int,
                );
                assert(spec_coord(path[0]) == from);
                lemma_path_in_closed(*self, result@, path);
                assert(spec_coord(path[path.len() - 1]) == c);
            }
        }
        result
    }

    /// Whether `(j, i)` is an in-bounds cell coordinate.
    pub open spec fn in_bounds(&self, j: int, i: int) -> bool {
        0 <= j < self.spec_height() && 0 <= i < self.spec_width()
    }

    /// Whether stepping one unit from in-bounds cell `ind` in direction
    /// `dir` stays on the grid.
    pub open spec fn spec_valid(&self, j: int, i: int, dir: Direction) -> bool {
        match dir {
            Direction::North => j > 0,
            Direction::South => j < self.spec_height() - 1,
            Direction::West => i > 0,
            Direction::East => i < self.spec_width() - 1,
        }
    }

    /// True iff stepping one unit from `ind` (given as `(row, col)`) in
    /// `dir` remains in bounds.
    pub fn valid(&self, ind: (usize, usize), dir: Direction) -> (b: bool)
        requires
            self.wf(),
        ensures
            b == self.spec_valid(ind.0 as int, ind.1 as int, dir),
    {
        let (j, i) = ind;
        match dir {
            Direction::North => j > 0,
            Direction::South => j < self.height() - 1,
            Direction::West => i > 0,
            Direction::East => i < self.width() - 1,
        }
    }

    /// Whether `(dir, g)` names a real insertion slot of this board: guide
    /// lanes are the odd rows or columns, so lane `2*g + 1` must exist.
    pub open spec fn slot_ok(&self, dir: Direction, g: int) -> bool {
        &&& 0 <= g
        &&& match dir {
            Direction::North | Direction::South => 2 * g + 1 < self.spec_width(),
            Direction::East | Direction::West => 2 * g + 1 < self.spec_height(),
        }
    }

    /// Whether the staged insertion slot, if any, names a real lane.
    pub open spec fn staged_ok(&self) -> bool {
        match self.loose_tile_position {
            None => true,
            Some((dir, g)) => self.slot_ok(dir, g as int),
        }
    }

    /// Overwrites the cell at `[col, row]` with the given tile.  The
    /// controller uses this to place goal marks on the grid.
    pub fn set(&mut self, ind: [usize; 2], tile: Tile)
        requires
            old(self).wf(),
            ind[0] < old(self).spec_width(),
            ind[1] < old(self).spec_height(),
        ensures
            final(self).wf(),
            final(self).spec_height() == old(self).spec_height(),
            final(self).spec_width() == old(self).spec_width(),
            forall|j: int, i: int|
                old(self).in_bounds(j, i) ==> #[trigger] final(self).grid()[j][i] == (if j
                    == ind[1] && i == ind[0] {
                    tile
                } else {
                    old(self).grid()[j][i]
                }),
            final(self).loose_tile == old(self).loose_tile,
            final(self).loose_tile_position == old(self).loose_tile_position,
            final(self).player_tokens == old(self).player_tokens,
    {
        proof {
            assert(self.grid()[ind[1] as int].len() == self.spec_width());
            assert(self.grid()[ind[1] as int] == self.cells@[ind[1] as int]@);
        }
        self.cells[ind[1]][ind[0]] = tile;
        proof {
            assert forall|j: int| 0 <= j < old(self).spec_height() implies (
            #[trigger] self.grid()[j]).len() == old(self).spec_width() by {
                assert(old(self).grid()[j].len() == old(self).spec_width());
            }
        }
    }

    /// Stages the loose tile to enter from edge `dir` at guide index
    /// `guide_idx`; only real lanes are accepted.
    pub fn stage_insertion(&mut self, dir: Direction, guide_idx: usize)
        requires
            old(self).wf(),
            old(self).slot_ok(dir, guide_idx as int),
        ensures
            final(self).loose_tile_position == Some((dir, guide_idx)),
            final(self).grid() == old(self).grid(),
            final(self).loose_tile == old(self).loose_tile,
            final(self).player_tokens == old(self).player_tokens,
    {
        self.loose_tile_position = Some((dir, guide_idx));
    }

    /// Rotates the loose tile a quarter turn clockwise.
    pub fn rotate_loose_tile(&mut self)
        ensures
            final(self).loose_tile.shape == old(self).loose_tile.shape,
            final(self).loose_tile.orientation == old(
                self,
            ).loose_tile.orientation.spec_clockwise(),
            final(self).loose_tile.whose_target == old(self).loose_tile.whose_target,
            final(self).grid() == old(self).grid(),
            final(self).loose_tile_position == old(self).loose_tile_position,
            final(self).player_tokens == old(self).player_tokens,
    {
        self.loose_tile.rotate();
    }

    /// Inserts the loose tile at its staged slot, shifting that lane one
    /// cell away from the entry edge; the tile pushed off the far edge
    /// becomes the new loose tile.  With no slot staged this is a no-op.
    pub fn insert_loose_tile(&mut self)
        requires
            old(self).wf(),
            old(self).staged_ok(),
        ensures
            final(self).wf(),
            (match old(self).loose_tile_position {
                None => *final(self) == *old(self),
                Some((dir, g)) => spec_inserted(*old(self), *final(self), dir, g as int),
            }),
            final(self).tiles() == old(self).tiles(),
            final(self).grid()[0][0] == old(self).grid()[0][0],
            final(self).grid()[0][old(self).spec_width() - 1] == old(self).grid()[0][old(
                self,
            ).spec_width() - 1],
            final(self).grid()[old(self).spec_height() - 1][0] == old(self).grid()[old(
                self,
            ).spec_height() - 1][0],
            final(self).grid()[old(self).spec_height() - 1][old(self).spec_width() - 1] == old(
                self,
            ).grid()[old(self).spec_height() - 1][old(self).spec_width() - 1],
    {
        let ghost pre: Board = *self;
        if let Some((dir, guide_idx)) = self.loose_tile_position {
            let bw = self.width();
            let bh = self.height();
            let target_idx = 2 * guide_idx + 1;
            let ghost t: int = target_idx as int;
            let ghost w: int = pre.spec_width();
            let ghost h: int = pre.spec_height();
            let ghost llen: int = spec_lane_len(dir, w, h);
            let (mut j, mut i) = match dir {
                Direction::North => (bh - 1, target_idx),
                Direction::South => (0usize, target_idx),
                Direction::West => (target_idx, bw - 1),
                Direction::East => (target_idx, 0usize),
            };
            proof {
                assert((j as int, i as int) == spec_scan_pos(dir, t, 0, w, h));
                assert(self.cells@.len() == h);
                assert(self.grid()[j as int] == self.cells@[j as int]@);
                assert(self.grid()[j as int].len() == w);
            }
            let next_loose_tile = self.cells[j][i];
            let ghost mut m: int = 0;
            proof {
                assert(next_loose_tile == spec_pushed_off(pre.grid(), dir, t));
            }
            while self.valid((j, i), dir)
                invariant
                    self.wf(),
                    self.spec_height() == h,
                    self.spec_width() == w,
                    pre.wf(),
                    pre.spec_height() == h,
                    pre.spec_width() == w,
                    1 <= t,
                    w <= usize::MAX,
                    h <= usize::MAX,
                    spec_lane_len(dir, w, h) == llen,
                    (match dir {
                        Direction::North | Direction::South => t < w,
                        Direction::East | Direction::West => t < h,
                    }),
                    0 <= m < llen,
                    (j as int, i as int) == spec_scan_pos(dir, t, m, w, h),
                    self.loose_tile == pre.loose_tile,
                    self.loose_tile_position == pre.loose_tile_position,
                    self.player_tokens == pre.player_tokens,
                    next_loose_tile == spec_pushed_off(pre.grid(), dir, t),
                    forall|a: int, b: int|
                        pre.in_bounds(a, b) && !(spec_on_lane(dir, t, a, b) && spec_scan_order(
                            dir,
                            a,
                            b,
                            w,
                            h,
                        ) < m) ==> #[trigger] self.grid()[a][b] == pre.grid()[a][b],
                    forall|a: int, b: int|
                        pre.in_bounds(a, b) && spec_on_lane(dir, t, a, b) && spec_scan_order(
                            dir,
                            a,
                            b,
                            w,
                            h,
                        ) < m ==> #[trigger] self.grid()[a][b] == grid_at(
                            pre.grid(),
                            spec_scan_pos(dir, t, spec_scan_order(dir, a, b, w, h) + 1, w, h),
                        ),
                decreases llen - m,
            {
                let ghost prev: Board = *self;
                let ghost oj: int = j as int;
                let ghost oi: int = i as int;
                proof {
                    assert(m < llen - 1);
                    assert(self.cells@.len() == h);
                }
                let (next_j, next_i) = step((j, i), dir);
                proof {
                    assert((next_j as int, next_i as int) == spec_scan_pos(dir, t, m + 1, w, h));
                    assert(0 <= (next_j as int) && (next_j as int) < h);
                    assert(0 <= (next_i as int) && (next_i as int) < w);
                    assert(self.grid()[next_j as int] == self.cells@[next_j as int]@);
                    assert(self.grid()[next_j as int].len() == w);
                    assert(self.grid()[oj] == self.cells@[oj]@);
                    assert(self.grid()[oj].len() == w);
                }
                let tmp = self.cells[next_j][next_i];
                self.cells[j][i] = tmp;
                proof {
                    assert(tmp == pre.grid()[next_j as int][next_i as int]);
                    assert forall|a: int| 0 <= a < h implies (#[trigger] self.grid()[a]).len()
                        == w by {
                        assert(prev.grid()[a].len() == w);
                        if a == oj {
                            assert(self.grid()[a] == prev.grid()[a].update(oi, tmp));
                        } else {
                            assert(self.grid()[a] == prev.grid()[a]);
                        }
                    }
                }
                j = next_j;
                i = next_i;
                proof {
                    m = m + 1;
                    assert forall|a: int, b: int|
                        pre.in_bounds(a, b) && !(spec_on_lane(dir, t, a, b) && spec_scan_order(
                            dir,
                            a,
                            b,
                            w,
                            h,
                        ) < m) implies #[trigger] self.grid()[a][b] == pre.grid()[a][b] by {
                        if a == oj {
                            assert(self.grid()[a] == prev.grid()[a].update(oi, tmp));
                        } else {
                            assert(self.grid()[a] == prev.grid()[a]);
                        }
                    }
                    assert forall|a: int, b: int|
                        pre.in_bounds(a, b) && spec_on_lane(dir, t, a, b) && spec_scan_order(
                            dir,
                            a,
                            b,
                            w,
                            h,
                        ) < m implies #[trigger] self.grid()[a][b] == grid_at(
                            pre.grid(),
                            spec_scan_pos(dir, t, spec_scan_order(dir, a, b, w, h) + 1, w, h),
                        ) by {
                        if a == oj {
                            assert(self.grid()[a] == prev.grid()[a].update(oi, tmp));
                        } else {
                            assert(self.grid()[a] == prev.grid()[a]);
                        }
                    }
                }
            }
            let ghost shifted: Board = *self;
            proof {
                assert(m == llen - 1);
                assert((j as int, i as int) == spec_scan_pos(dir, t, llen - 1, w, h));
                assert(0 <= (j as int) && (j as int) < h && 0 <= (i as int) && (i as int) < w);
                assert(self.cells@.len() == h);
                assert(self.grid()[j as int] == self.cells@[j as int]@);
                assert(self.grid()[j as int].len() == w);
            }
            let entering = self.loose_tile;
            self.cells[j][i] = entering;
            self.loose_tile = next_loose_tile;
            proof {
                let ej: int = j as int;
                let ei: int = i as int;
                assert forall|a: int| 0 <= a < h implies (#[trigger] self.grid()[a]).len()
                    == w by {
                    assert(shifted.grid()[a].len() == w);
                    if a == ej {
                        assert(self.grid()[a] == shifted.grid()[a].update(ei, entering));
                    } else {
                        assert(self.grid()[a] == shifted.grid()[a]);
                    }
                }
                assert forall|a: int, b: int| pre.in_bounds(a, b) implies #[trigger] self.grid(
                )[a][b] == spec_shifted_cell(pre.grid(), pre.loose_tile, dir, t, a, b) by {
                    if a == ej {
                        assert(self.grid()[a] == shifted.grid()[a].update(ei, entering));
                    } else {
                        assert(self.grid()[a] == shifted.grid()[a]);
                    }
                    if spec_on_lane(dir, t, a, b) {
                        let so = spec_scan_order(dir, a, b, w, h);
                        if so < llen - 1 {
                            assert(shifted.grid()[a][b] == grid_at(
                                pre.grid(),
                                spec_scan_pos(dir, t, so + 1, w, h),
                            ));
                        }
                    }
                }
                assert(spec_inserted(pre, *self, dir, guide_idx as int));
                lemma_inserted_tiles(pre, *self, dir, guide_idx as int);
                assert(t != 0 && t != w - 1 && t != h - 1) by {
                    assert(w % 2 == 1 && h % 2 == 1);
                };
            }
        }
    }
}

} // verus!

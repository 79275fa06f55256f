//! The accounting laws of the histogram: a cube holding clipped deposit
//! counts totals to the number of deposits in its band, and reordering
//! non-axis payload pairs cannot change what a payload deposits.

use vstd::prelude::*;
use crate::cube::Cube;
use crate::cube::cube_sum;
use crate::cube::cube_upd;
use crate::cube::lemma_cube_sum_zero;
use crate::cube::lemma_cube_upd_sum;
use crate::config::Config;
use crate::stream::Position;
use crate::stream::cap32;
use crate::stream::dep_count;
use crate::stream::lemma_dep_count_nonneg;
use crate::stream::lemma_dep_count_push;
use crate::stream::spec_pair_action;
use crate::stream::spec_scan;

verus! {

broadcast use vstd::seq_lib::lemma_multiset_commutative;

/// How many deposits fell into the channel band `[lo, hi)`.
pub open spec fn band_count(deps: Seq<(int, int, int)>, lo: int, hi: int) -> int
    decreases deps.len(),
{
    if deps.len() == 0 {
        0
    } else {
        band_count(deps.drop_last(), lo, hi) + (if lo <= deps.last().2 < hi {
            1int
        } else {
            0int
        })
    }
}

proof fn lemma_dep_count_le_len(deps: Seq<(int, int, int)>, y: int, x: int, z: int)
    ensures
        dep_count(deps, y, x, z) <= deps.len(),
    decreases deps.len(),
{
    if deps.len() > 0 {
        lemma_dep_count_le_len(deps.drop_last(), y, x, z);
    }
}

/// The model of a channel-band slice: cell `(y, x, z)` holds the clipped
/// count of deposits at `(y, x, z + lo)`.
pub open spec fn band_cells(
    deps: Seq<(int, int, int)>,
    ny: int,
    nx: int,
    lo: int,
    hi: int,
) -> Seq<Seq<Seq<u32>>> {
    Seq::new(
        ny as nat,
        |y: int|
            Seq::new(
                nx as nat,
                |x: int| Seq::new((hi - lo) as nat, |z: int| cap32(dep_count(deps, y, x, z + lo))),
            ),
    )
}

proof fn lemma_band_cells_sum(deps: Seq<(int, int, int)>, ny: int, nx: int, lo: int, hi: int)
    requires
        0 <= lo <= hi,
        0 <= ny,
        0 <= nx,
        deps.len() <= u32::MAX,
        forall|k: int|
            0 <= k < deps.len() ==> 0 <= (#[trigger] deps[k]).0 < ny && 0 <= deps[k].1 < nx,
    ensures
        cube_sum(band_cells(deps, ny, nx, lo, hi)) == band_count(deps, lo, hi),
    decreases deps.len(),
{
    let m = band_cells(deps, ny, nx, lo, hi);
    if deps.len() == 0 {
        assert forall|i: int, j: int, k: int|
            0 <= i < m.len() && 0 <= j < m[i].len() && 0 <= k < m[i][j].len() implies m[i][j][k]
            == 0u32 by {}
        lemma_cube_sum_zero(m);
    } else {
        let d0 = deps.drop_last();
        let t = deps.last();
        assert forall|k: int|
            0 <= k < d0.len() implies 0 <= (#[trigger] d0[k]).0 < ny && 0 <= d0[k].1 < nx by {
            assert(d0[k] == deps[k]);
        }
        lemma_band_cells_sum(d0, ny, nx, lo, hi);
        let m0 = band_cells(d0, ny, nx, lo, hi);
        assert(d0.push(t) =~= deps);
        if lo <= t.2 < hi {
            let c0 = dep_count(d0, t.0, t.1, t.2);
            lemma_dep_count_le_len(d0, t.0, t.1, t.2);
            lemma_dep_count_nonneg(d0, t.0, t.1, t.2);
            let m1 = cube_upd(m0, t.0, t.1, t.2 - lo, cap32(c0 + 1));
            assert forall|y: int, x: int, z: int|
                0 <= y < ny && 0 <= x < nx && 0 <= z < hi - lo implies #[trigger] m[y][x][z]
                == m1[y][x][z] by {
                lemma_dep_count_push(d0, t, y, x, z + lo);
                lemma_dep_count_nonneg(d0, y, x, z + lo);
                if y == t.0 && x == t.1 && z == t.2 - lo {
                    assert(dep_count(deps, y, x, z + lo) == c0 + 1);
                    assert(m1[y][x] == m0[y][x].update(t.2 - lo, cap32(c0 + 1)));
                } else {
                    assert(dep_count(deps, y, x, z + lo) == dep_count(d0, y, x, z + lo));
                    if y == t.0 {
                        assert(m1[y] == m0[y].update(
                            t.1,
                            m0[t.0][t.1].update(t.2 - lo, cap32(c0 + 1)),
                        ));
                        if x == t.1 {
                            assert(m1[y][x] == m0[y][x].update(t.2 - lo, cap32(c0 + 1)));
                        }
                    }
                }
            }
            assert(m =~~= m1);
            lemma_cube_upd_sum(m0, t.0, t.1, t.2 - lo, cap32(c0 + 1));
            assert(m0[t.0][t.1][t.2 - lo] == cap32(c0));
            assert(cap32(c0) == c0 && cap32(c0 + 1) == c0 + 1);
        } else {
            assert forall|y: int, x: int, z: int|
                0 <= y < ny && 0 <= x < nx && 0 <= z < hi - lo implies #[trigger] m[y][x][z]
                == m0[y][x][z] by {
                lemma_dep_count_push(d0, t, y, x, z + lo);
            }
            assert(m =~~= m0);
        }
    }
}

/// Sub-cube accounting: a well-formed cube whose cells hold the clipped
/// counts of the deposits in the band `[lo, hi)` totals to exactly the
/// number of deposits that fell into that band, as long as fewer than
/// `u32::MAX` deposits were made in all.
pub proof fn lemma_band_sum(c: Cube, deps: Seq<(int, int, int)>, lo: int, hi: int)
    requires
        c.wf(),
        0 <= lo <= hi,
        c.nz() == hi - lo,
        deps.len() <= u32::MAX,
        forall|k: int|
            0 <= k < deps.len() ==> 0 <= (#[trigger] deps[k]).0 < c.ny() && 0 <= deps[k].1
                < c.nx(),
        forall|y: int, x: int, z: int|
            0 <= y < c.ny() && 0 <= x < c.nx() && 0 <= z < c.nz() ==> #[trigger] c.cell(y, x, z)
                == cap32(dep_count(deps, y, x, z + lo)),
    ensures
        cube_sum(c.cells()) == band_count(deps, lo, hi),
{
    let m = band_cells(deps, c.ny(), c.nx(), lo, hi);
    assert(c.cells().len() == m.len());
    assert forall|y: int| 0 <= y < m.len() implies (#[trigger] c.cells()[y]).len()
        == m[y].len() by {}
    assert forall|y: int, x: int| 0 <= y < m.len() && 0 <= x < m[y].len() implies (
    #[trigger] c.cells()[y][x]).len() == m[y][x].len() by {}
    assert forall|y: int, x: int, z: int|
        0 <= y < m.len() && 0 <= x < m[y].len() && 0 <= z < m[y][x].len() implies (
    #[trigger] c.cells()[y][x][z]) == m[y][x][z] by {
        assert(c.cell(y, x, z) == cap32(dep_count(deps, y, x, z + lo)));
    }
    assert(c.cells() =~~= m);
    lemma_band_cells_sum(deps, c.ny(), c.nx(), lo, hi);
}

proof fn lemma_band_count_all(deps: Seq<(int, int, int)>, lo: int, hi: int)
    requires
        forall|k: int| 0 <= k < deps.len() ==> lo <= (#[trigger] deps[k]).2 < hi,
    ensures
        band_count(deps, lo, hi) == deps.len(),
    decreases deps.len(),
{
    if deps.len() > 0 {
        let d0 = deps.drop_last();
        assert forall|k: int| 0 <= k < d0.len() implies lo <= (#[trigger] d0[k]).2 < hi by {
            assert(d0[k] == deps[k]);
        }
        lemma_band_count_all(d0, lo, hi);
    }
}

/// Packed accounting: a well-formed cube whose cells hold the clipped
/// deposit counts totals to exactly the number of deposits, as long as
/// fewer than `u32::MAX` deposits were made.
pub proof fn lemma_packed_sum(c: Cube, deps: Seq<(int, int, int)>)
    requires
        c.wf(),
        deps.len() <= u32::MAX,
        forall|k: int|
            0 <= k < deps.len() ==> 0 <= (#[trigger] deps[k]).0 < c.ny() && 0 <= deps[k].1 < c.nx()
                && 0 <= deps[k].2 < c.nz(),
        forall|y: int, x: int, z: int|
            0 <= y < c.ny() && 0 <= x < c.nx() && 0 <= z < c.nz() ==> #[trigger] c.cell(y, x, z)
                == cap32(dep_count(deps, y, x, z)),
    ensures
        cube_sum(c.cells()) == deps.len(),
{
    assert forall|y: int, x: int, z: int|
        0 <= y < c.ny() && 0 <= x < c.nx() && 0 <= z < c.nz() implies #[trigger] c.cell(y, x, z)
        == cap32(dep_count(deps, y, x, z + 0)) by {}
    lemma_band_sum(c, deps, 0, c.nz());
    lemma_band_count_all(deps, 0, c.nz());
}

/// A payload pair that can never move the beam position: not an in-range
/// axis update.
pub open spec fn is_nonaxis(cfg: Config, max_x: int, max_y: int, flag: u32, v: u16) -> bool {
    &&& !(flag == cfg.x && (v as int) < max_x)
    &&& !(flag == cfg.y && (v as int) < max_y)
}

/// Bit-order law: swapping two adjacent non-axis `(flag, value)` pairs
/// within one payload leaves the final beam position unchanged and permutes
/// the emitted pairs, so the histogram the payload deposits is unchanged.
/// Swapping an axis pair with another pair carries no such guarantee:
/// position updates are positional.
pub proof fn lemma_scan_swap_nonaxis(
    cfg: Config,
    max_x: int,
    max_y: int,
    flags: Seq<u32>,
    vals: Seq<u16>,
    pos: Position,
    i: int,
)
    requires
        flags.len() == vals.len(),
        0 <= i,
        i + 1 < flags.len(),
        is_nonaxis(cfg, max_x, max_y, flags[i], vals[i]),
        is_nonaxis(cfg, max_x, max_y, flags[i + 1], vals[i + 1]),
    ensures
        ({
            let orig = spec_scan(cfg, max_x, max_y, flags, vals, pos);
            let sw = spec_scan(
                cfg,
                max_x,
                max_y,
                flags.update(i, flags[i + 1]).update(i + 1, flags[i]),
                vals.update(i, vals[i + 1]).update(i + 1, vals[i]),
                pos,
            );
            sw.0 == orig.0 && sw.1.to_multiset() == orig.1.to_multiset()
        }),
    decreases i,
{
    let fs2 = flags.update(i, flags[i + 1]).update(i + 1, flags[i]);
    let vs2 = vals.update(i, vals[i + 1]).update(i + 1, vals[i]);
    let orig = spec_scan(cfg, max_x, max_y, flags, vals, pos);
    let sw = spec_scan(cfg, max_x, max_y, fs2, vs2, pos);
    if i == 0 {
        let a0 = spec_pair_action(cfg, max_x, max_y, flags[0], vals[0], pos);
        let a1 = spec_pair_action(cfg, max_x, max_y, flags[1], vals[1], pos);
        assert(a0.0 == pos);
        assert(a1.0 == pos);
        let dd_f = flags.drop_first().drop_first();
        let dd_v = vals.drop_first().drop_first();
        assert(fs2.drop_first().drop_first() =~= dd_f);
        assert(vs2.drop_first().drop_first() =~= dd_v);
        let rest = spec_scan(cfg, max_x, max_y, dd_f, dd_v, pos);
        // unswapped: pair 0 then pair 1, both at `pos`
        assert(flags.drop_first()[0] == flags[1]);
        assert(vals.drop_first()[0] == vals[1]);
        assert(flags.drop_first().drop_first() =~= dd_f);
        let r1 = spec_scan(cfg, max_x, max_y, flags.drop_first(), vals.drop_first(), pos);
        assert(r1.0 == rest.0 && r1.1 == (match a1.1 {
            Some(e) => seq![e] + rest.1,
            None => rest.1,
        }));
        assert(orig.0 == rest.0 && orig.1 == (match a0.1 {
            Some(e0) => seq![e0] + r1.1,
            None => r1.1,
        }));
        // swapped: pair 1 then pair 0, both at `pos`
        assert(fs2[0] == flags[1]);
        assert(vs2[0] == vals[1]);
        assert(fs2.drop_first()[0] == flags[0]);
        assert(vs2.drop_first()[0] == vals[0]);
        let r2 = spec_scan(cfg, max_x, max_y, fs2.drop_first(), vs2.drop_first(), pos);
        assert(r2.0 == rest.0 && r2.1 == (match a0.1 {
            Some(e) => seq![e] + rest.1,
            None => rest.1,
        }));
        assert(sw.0 == rest.0 && sw.1 == (match a1.1 {
            Some(e1) => seq![e1] + r2.1,
            None => r2.1,
        }));
        let e0s: Seq<(Seq<char>, u32)> = match a0.1 {
            Some(e0) => seq![e0],
            None => Seq::empty(),
        };
        let e1s: Seq<(Seq<char>, u32)> = match a1.1 {
            Some(e1) => seq![e1],
            None => Seq::empty(),
        };
        assert(orig.1 =~= e0s + (e1s + rest.1));
        assert(sw.1 =~= e1s + (e0s + rest.1));
        assert(orig.1.to_multiset() =~= sw.1.to_multiset());
    } else {
        assert(fs2[0] == flags[0]);
        assert(vs2[0] == vals[0]);
        let a0 = spec_pair_action(cfg, max_x, max_y, flags[0], vals[0], pos);
        assert(fs2.drop_first() =~= flags.drop_first().update(i - 1, flags[i + 1]).update(
            i,
            flags[i],
        ));
        assert(vs2.drop_first() =~= vals.drop_first().update(i - 1, vals[i + 1]).update(
            i,
            vals[i],
        ));
        assert(flags.drop_first()[i - 1] == flags[i]);
        assert(flags.drop_first()[i] == flags[i + 1]);
        assert(vals.drop_first()[i - 1] == vals[i]);
        assert(vals.drop_first()[i] == vals[i + 1]);
        lemma_scan_swap_nonaxis(
            cfg,
            max_x,
            max_y,
            flags.drop_first(),
            vals.drop_first(),
            a0.0,
            i - 1,
        );
        let sub = spec_scan(cfg, max_x, max_y, flags.drop_first(), vals.drop_first(), a0.0);
        let sub2 = spec_scan(cfg, max_x, max_y, fs2.drop_first(), vs2.drop_first(), a0.0);
        assert(sub2.0 == sub.0 && sub2.1.to_multiset() == sub.1.to_multiset());
        match a0.1 {
            Some(e0) => {
                assert(orig.1 =~= seq![e0] + sub.1);
                assert(sw.1 =~= seq![e0] + sub2.1);
                assert((seq![e0] + sub.1).to_multiset() =~= (seq![e0] + sub2.1).to_multiset());
            },
            None => {
                assert(orig.1 == sub.1);
                assert(sw.1 == sub2.1);
            },
        }
    }
}

} // verus!

//! The grid domain model: assigned values, per-cell remaining-candidate
//! bitsets, counters, and the relation table that says which cells constrain
//! one another. Every counter is tied by `wf` to an independent recount, and
//! `cands_sound` ties the bitset to the assigned values.

use vstd::prelude::*;

use crate::bitset::{bits_clone, bits_filled, bits_get, bits_of, bits_set};
use crate::counting::{
    count_eq, count_true, lemma_count_eq_agree, lemma_count_eq_all, lemma_count_eq_at,
    lemma_count_eq_le, lemma_count_eq_lt, lemma_count_true_at,
    lemma_count_true_const, lemma_count_true_le, lemma_count_true_none, lemma_count_true_two,
    lemma_count_true_update,
};
use crate::distinct::{lemma_distinct_count, unique_count};
use crate::random::rand_below;
use crate::{gen_char_array, NO_VALUE, SYMBOLS_EXTENDED, SYMBOLS_STANDARD};

verus! {

/// One mutable puzzle state: shape, relation table, assigned values, and the
/// candidate bitset with its cached counters.
pub struct Grid {
    pub width: u8,
    pub height: u8,
    pub block_width: u8,
    pub block_height: u8,
    pub block_col_count: u8,
    pub block_row_count: u8,
    pub block_count: u8,
    pub block_cell_count: u8,
    pub cell_count: u16,
    pub unsolved_cell_count: u16,
    pub max_value: u8,
    pub max_related_cell_count: u16,
    pub symbols: Vec<char>,
    pub values: Vec<u8>,
    pub remaining_value_count: u32,
    pub remaining_value_counts: Vec<u8>,
    pub remaining_values: bit_vec::BitVec,
    pub related_cell_indexes: Vec<u16>,
}

impl Grid {
    pub open spec fn cc(self) -> int {
        self.cell_count as int
    }

    pub open spec fn mv(self) -> int {
        self.max_value as int
    }

    pub open spec fn mrcc(self) -> int {
        self.max_related_cell_count as int
    }

    /// The candidate bitset as a sequence, one bit per (cell, value) pair.
    pub open spec fn bits(self) -> Seq<bool> {
        bits_of(&self.remaining_values)
    }

    /// The slice of the bitset that belongs to one cell.
    pub open spec fn cand_slice(self, cell: int) -> Seq<bool> {
        self.bits().subrange(cell * self.mv(), cell * self.mv() + self.mv())
    }

    /// How many candidate values remain open for one cell.
    pub open spec fn cand_count(self, cell: int) -> nat {
        count_true(self.cand_slice(cell))
    }

    /// Whether `value` is still a candidate for `cell`.
    pub open spec fn has_cand(self, cell: int, value: int) -> bool {
        self.bits()[cell * self.mv() + value - 1]
    }

    /// The candidate counts of the first `n` cells, summed.
    pub open spec fn total_cands(self, n: int) -> nat
        decreases n,
    {
        if n <= 0 {
            0
        } else {
            self.total_cands(n - 1) + self.cand_count(n - 1)
        }
    }

    /// The derived shape fields agree with the four constructor inputs.
    pub open spec fn shape_wf(self) -> bool {
        &&& 0 < self.block_width <= self.width
        &&& 0 < self.block_height <= self.height
        &&& self.block_col_count == (self.width + self.block_width - 1) / (self.block_width as int)
        &&& self.block_row_count == (self.height + self.block_height - 1) / (
        self.block_height as int)
        &&& self.block_count == self.block_col_count * self.block_row_count
        &&& self.block_cell_count == self.block_width * self.block_height
        &&& self.cell_count == self.width * self.height
        &&& self.max_value >= self.width
        &&& self.max_value >= self.height
        &&& self.max_value >= self.block_cell_count
        &&& (self.max_value == self.width || self.max_value == self.height || self.max_value
            == self.block_cell_count)
    }

    /// The arrays have the lengths the shape dictates, and hold in-range
    /// entries.
    pub open spec fn arrays_wf(self) -> bool {
        &&& self.values.len() == self.cc()
        &&& self.remaining_value_counts.len() == self.cc()
        &&& self.bits().len() == self.cc() * self.mv()
        &&& self.related_cell_indexes.len() == self.cc() * self.mrcc()
        &&& forall|i: int| 0 <= i < self.cc() ==> #[trigger] self.values[i] <= self.max_value
        &&& forall|k: int|
            0 <= k < self.related_cell_indexes.len() ==> #[trigger] self.related_cell_indexes[k]
                < self.cell_count
    }

    /// Every cached counter equals an independent recount.
    pub open spec fn counters_wf(self) -> bool {
        &&& forall|i: int|
            0 <= i < self.cc() ==> #[trigger] self.remaining_value_counts[i] as nat
                == self.cand_count(i)
        &&& self.remaining_value_count as nat == self.total_cands(self.cc())
        &&& self.unsolved_cell_count as nat == count_eq(self.values@, NO_VALUE, self.cc())
    }

    pub open spec fn wf(self) -> bool {
        self.shape_wf() && self.arrays_wf() && self.counters_wf()
    }

    /// The relation-table entry in slot `k` of `cell`.
    pub open spec fn related_slot(self, cell: int, k: int) -> int {
        self.related_cell_indexes[cell * self.mrcc() + k] as int
    }

    /// Whether cell `j` appears in cell `i`'s relation slots. A slot holding
    /// the cell's own index is padding and relates it to nothing.
    pub open spec fn is_related(self, i: int, j: int) -> bool {
        related_in(self.related_cell_indexes@, self.mrcc(), i, j)
    }

    /// Whenever `i` lists `j`, `j` lists `i`.
    pub open spec fn table_symmetric(self) -> bool {
        forall|i: int, j: int|
            0 <= i < self.cc() && 0 <= j < self.cc() && #[trigger] self.is_related(i, j)
                ==> self.is_related(j, i)
    }

    /// Whether the assigned values leave `v` open for cell `i`: the cell is
    /// unassigned and no related cell holds `v`.
    pub open spec fn value_allowed(self, i: int, v: int) -> bool {
        self.values[i] == NO_VALUE && forall|j: int|
            0 <= j < self.cc() && #[trigger] self.is_related(i, j) ==> self.values[j] != v
    }

    /// One cell's candidate bit is exact: set if and only if the assigned
    /// values leave that value open.
    pub open spec fn cand_ok(self, i: int, v: int) -> bool {
        self.has_cand(i, v) <==> self.value_allowed(i, v)
    }

    /// The whole bitset is exact with respect to the assigned values.
    pub open spec fn cands_sound(self) -> bool {
        forall|i: int, v: int| 0 <= i < self.cc() && 1 <= v <= self.mv() ==> #[trigger] self.cand_ok(
            i,
            v,
        )
    }

    /// No two related cells hold the same assigned value.
    pub open spec fn no_conflicts(self) -> bool {
        forall|i: int, j: int|
            0 <= i < self.cc() && 0 <= j < self.cc() && #[trigger] self.is_related(i, j)
                && self.values[i] != NO_VALUE ==> self.values[i] != self.values[j]
    }

    /// Every unassigned cell still has at least one candidate open.
    pub open spec fn viable(self) -> bool {
        forall|i: int|
            0 <= i < self.cc() && self.values[i] == NO_VALUE ==> #[trigger] self.cand_count(i) >= 1
    }

    /// The two grids have the same shape, symbols and relation table.
    pub open spec fn same_shape(self, other: Grid) -> bool {
        &&& self.width == other.width
        &&& self.height == other.height
        &&& self.block_width == other.block_width
        &&& self.block_height == other.block_height
        &&& self.block_col_count == other.block_col_count
        &&& self.block_row_count == other.block_row_count
        &&& self.block_count == other.block_count
        &&& self.block_cell_count == other.block_cell_count
        &&& self.cell_count == other.cell_count
        &&& self.max_value == other.max_value
        &&& self.max_related_cell_count == other.max_related_cell_count
        &&& self.symbols@ == other.symbols@
        &&& self.related_cell_indexes@ == other.related_cell_indexes@
    }

    /// The two grids agree on every observable part of their state.
    pub open spec fn same_state(self, other: Grid) -> bool {
        &&& self.same_shape(other)
        &&& self.values@ == other.values@
        &&& self.unsolved_cell_count == other.unsolved_cell_count
        &&& self.remaining_value_count == other.remaining_value_count
        &&& self.remaining_value_counts@ == other.remaining_value_counts@
        &&& self.bits() == other.bits()
    }
}

/// Whether cell `j` appears among cell `i`'s slots in a relation table that
/// gives `mrcc` slots to each cell. A slot holding the cell's own index is
/// padding and relates it to nothing.
pub open spec fn related_in(table: Seq<u16>, mrcc: int, i: int, j: int) -> bool {
    i != j && exists|k: int| 0 <= k < mrcc && #[trigger] table[i * mrcc + k] == j
}

/// The bitset slot of (cell `i`, offset `off`) lies inside cell `i`'s slice,
/// which lies inside a bitset for `cc` cells.
pub proof fn lemma_slot_bounds(cc: int, mv: int, i: int, off: int)
    requires
        0 <= i < cc,
        0 <= off < mv,
    ensures
        0 <= i * mv,
        i * mv + off < i * mv + mv,
        i * mv + mv <= cc * mv,
{
    assert(0 <= i * mv && i * mv + mv <= cc * mv) by (nonlinear_arith)
        requires
            0 <= i < cc,
            0 <= off < mv,
    ;
}

/// A slot of cell `c` lies outside the slice of any other cell `i`.
pub proof fn lemma_slots_disjoint(i: int, c: int, mv: int, off: int)
    requires
        i != c,
        0 <= i,
        0 <= c,
        0 <= off < mv,
    ensures
        c * mv + off < i * mv || c * mv + off >= i * mv + mv,
{
    if i < c {
        assert(i * mv + mv <= c * mv) by (nonlinear_arith)
            requires
                i < c,
                mv >= 0,
        ;
    } else {
        assert(c * mv + mv <= i * mv) by (nonlinear_arith)
            requires
                c < i,
                mv >= 0,
        ;
    }
}

/// A candidate bit read through the whole bitset and read through the cell's
/// slice are the same bit.
pub proof fn lemma_has_cand_slice(g: Grid, i: int, v: int)
    requires
        g.bits().len() == g.cc() * g.mv(),
        0 <= i < g.cc(),
        1 <= v <= g.mv(),
    ensures
        g.has_cand(i, v) == g.cand_slice(i)[v - 1],
        g.cand_slice(i).len() == g.mv(),
{
    lemma_slot_bounds(g.cc(), g.mv(), i, v - 1);
}

/// After one bit of cell `c` is rewritten, `c`'s slice sees the update and
/// every other cell's slice is untouched.
pub proof fn lemma_bits_update_slices(g1: Grid, g2: Grid, c: int, off: int, b: bool)
    requires
        g1.mv() == g2.mv(),
        g1.cc() == g2.cc(),
        g1.bits().len() == g1.cc() * g1.mv(),
        0 <= c < g1.cc(),
        0 <= off < g1.mv(),
        g2.bits() == g1.bits().update(c * g1.mv() + off, b),
    ensures
        forall|i: int|
            0 <= i < g1.cc() && i != c ==> #[trigger] g2.cand_slice(i) == g1.cand_slice(i),
        g2.cand_slice(c) == g1.cand_slice(c).update(off, b),
        g2.bits().len() == g1.bits().len(),
{
    let mv = g1.mv();
    let cc = g1.cc();
    lemma_slot_bounds(cc, mv, c, off);
    assert forall|i: int| 0 <= i < cc && i != c implies #[trigger] g2.cand_slice(i)
        == g1.cand_slice(i) by {
        lemma_slot_bounds(cc, mv, i, 0);
        lemma_slots_disjoint(i, c, mv, off);
        assert(g2.cand_slice(i) =~= g1.cand_slice(i));
    }
    assert(g2.cand_slice(c) =~= g1.cand_slice(c).update(off, b));
}

/// Summed candidate counts only see the one cell whose slice changed.
pub proof fn lemma_total_cands_reindex(g1: Grid, g2: Grid, c: int, n: int)
    requires
        g1.mv() == g2.mv(),
        forall|i: int| 0 <= i < n && i != c ==> #[trigger] g2.cand_slice(i) == g1.cand_slice(i),
        0 <= c,
    ensures
        c < n ==> g2.total_cands(n) + g1.cand_count(c) == g1.total_cands(n) + g2.cand_count(c),
        c >= n ==> g2.total_cands(n) == g1.total_cands(n),
    decreases n,
{
    if n > 0 {
        lemma_total_cands_reindex(g1, g2, c, n - 1);
    }
}

/// Summed candidate counts are bounded by `n` times the per-cell bound.
pub proof fn lemma_total_cands_le(g: Grid, n: int, bound: nat)
    requires
        0 <= n,
        forall|i: int| 0 <= i < n ==> #[trigger] g.cand_count(i) <= bound,
    ensures
        g.total_cands(n) <= n * bound,
    decreases n,
{
    if n == 0 {
        assert(n * bound == 0);
    } else {
        lemma_total_cands_le(g, n - 1, bound);
        assert((n - 1) * bound + bound == n * bound) by (nonlinear_arith);
    }
}

/// When every cell has the same candidate count, the sum is the product.
pub proof fn lemma_total_cands_uniform(g: Grid, n: int, each: nat)
    requires
        0 <= n,
        forall|i: int| 0 <= i < n ==> #[trigger] g.cand_count(i) == each,
    ensures
        g.total_cands(n) == n * each,
    decreases n,
{
    if n == 0 {
        assert(n * each == 0);
    } else {
        lemma_total_cands_uniform(g, n - 1, each);
        assert((n - 1) * each + each == n * each) by (nonlinear_arith);
    }
}

/// The sum over the first `n` cells includes any one cell below `n`.
pub proof fn lemma_total_cands_at(g: Grid, n: int, i: int)
    requires
        0 <= i < n,
    ensures
        g.total_cands(n) >= g.cand_count(i),
    decreases n,
{
    if i < n - 1 {
        lemma_total_cands_at(g, n - 1, i);
    }
}

impl Grid {
    /// A fresh grid of the given shape: all cells empty, every value from one
    /// to `max_value` a candidate everywhere, no relation table yet, and the
    /// default symbol alphabet.
    pub fn new(width: u8, height: u8, block_width: u8, block_height: u8) -> (g: Grid)
        requires
            0 < block_width <= width,
            0 < block_height <= height,
            ((width + block_width - 1) / (block_width as int)) * ((height + block_height - 1) / (
            block_height as int)) <= u8::MAX,
            block_width * block_height <= u8::MAX,
        ensures
            g.wf(),
            g.cands_sound(),
            g.no_conflicts(),
            g.viable(),
            g.table_symmetric(),
            g.width == width,
            g.height == height,
            g.block_width == block_width,
            g.block_height == block_height,
            g.cell_count == width * height,
            g.unsolved_cell_count == g.cell_count,
            g.max_related_cell_count == 0,
            g.related_cell_indexes@.len() == 0,
            forall|i: int| 0 <= i < g.cc() ==> g.values[i] == NO_VALUE,
            forall|i: int, v: int| 0 <= i < g.cc() && 1 <= v <= g.mv() ==> g.has_cand(i, v),
            forall|i: int| 0 <= i < g.cc() ==> #[trigger] g.cand_count(i) == g.mv(),
            g.symbols@ == if g.max_value <= 9 {
                SYMBOLS_STANDARD@
            } else {
                SYMBOLS_EXTENDED@
            },
    {
        let block_col_count = ((width as u16 + block_width as u16 - 1) / block_width as u16) as u8;
        let block_row_count = ((height as u16 + block_height as u16 - 1)
            / block_height as u16) as u8;
        proof {
            assert((width + block_width - 1) / (block_width as int) <= width) by (nonlinear_arith)
                requires
                    0 < block_width <= width,
            ;
            assert((height + block_height - 1) / (block_height as int) <= height)
                by (nonlinear_arith)
                requires
                    0 < block_height <= height,
            ;
        }
        let block_count = ((block_col_count as u16) * (block_row_count as u16)) as u8;
        let block_cell_count = ((block_width as u16) * (block_height as u16)) as u8;
        proof {
            assert(width as int * height as int <= 65535) by (nonlinear_arith)
                requires
                    width <= 255,
                    height <= 255,
            ;
        }
        let cell_count = width as u16 * height as u16;

        let mut max_value = width;
        if height > max_value {
            max_value = height;
        }
        if block_cell_count > max_value {
            max_value = block_cell_count;
        }

        let mut values: Vec<u8> = Vec::new();
        let mut remaining_value_counts: Vec<u8> = Vec::new();
        for i in 0..cell_count
            invariant
                values@ == Seq::new(i as nat, |j: int| NO_VALUE),
                remaining_value_counts@ == Seq::new(i as nat, |j: int| max_value),
        {
            values.push(NO_VALUE);
            remaining_value_counts.push(max_value);
            proof {
                assert(values@ =~= Seq::new(i as nat + 1, |j: int| NO_VALUE));
                assert(remaining_value_counts@ =~= Seq::new(i as nat + 1, |j: int| max_value));
            }
        }

        proof {
            assert(cell_count as int * max_value as int <= 65535 * 255 && max_value as int
                * cell_count as int == cell_count as int * max_value as int) by (nonlinear_arith)
                requires
                    cell_count <= 65535,
                    max_value <= 255,
            ;
        }
        let remaining_value_count = cell_count as u32 * max_value as u32;
        let remaining_values = bits_filled(max_value as usize * cell_count as usize, true);

        let symbols = gen_char_array(
            if max_value <= 9 {
                SYMBOLS_STANDARD
            } else {
                SYMBOLS_EXTENDED
            },
        );

        let g = Grid {
            width,
            height,
            block_width,
            block_height,
            block_col_count,
            block_row_count,
            block_count,
            block_cell_count,
            cell_count,
            unsolved_cell_count: cell_count,
            max_value,
            max_related_cell_count: 0,
            symbols,
            values,
            remaining_value_count,
            remaining_value_counts,
            remaining_values,
            related_cell_indexes: Vec::new(),
        };
        proof {
            let cc = g.cc();
            let mv = g.mv();
            assert(cc * mv >= 0) by (nonlinear_arith)
                requires
                    cc >= 0,
                    mv >= 0,
            ;
            assert(g.bits() =~= Seq::new((cc * mv) as nat, |j: int| true));
            assert forall|i: int| 0 <= i < cc implies #[trigger] g.cand_count(i) == mv by {
                lemma_slot_bounds(cc, mv, i, 0);
                assert(g.cand_slice(i) =~= Seq::new(mv as nat, |j: int| true));
                lemma_count_true_const(mv as nat, true);
            }
            lemma_total_cands_uniform(g, cc, mv as nat);
            lemma_count_eq_all(g.values@, NO_VALUE, cc);
            assert forall|i: int, v: int| 0 <= i < cc && 1 <= v <= mv implies g.has_cand(i, v) by {
                lemma_slot_bounds(cc, mv, i, v - 1);
            }
            assert forall|i: int, v: int| 0 <= i < cc && 1 <= v <= mv implies #[trigger] g.cand_ok(
                i,
                v,
            ) by {
                lemma_slot_bounds(cc, mv, i, v - 1);
            }
            assert(cc * g.mrcc() == 0) by (nonlinear_arith)
                requires
                    g.mrcc() == 0,
            ;
        }
        g
    }

    /// Replaces the symbol alphabet.
    pub fn symbols(self, symbols: &str) -> (g: Grid)
        ensures
            g.symbols@ == symbols@,
            g == (Grid { symbols: g.symbols, ..self }),
    {
        let mut g = self;
        g.symbols = gen_char_array(symbols);
        g
    }

    /// The flat bitset index of the (cell, value) pair.
    fn cand_index(&self, index: u16, value: u8) -> (k: usize)
        requires
            self.wf(),
            index < self.cell_count,
            1 <= value <= self.max_value,
        ensures
            k == index as int * self.mv() + value - 1,
            k < self.bits().len(),
    {
        proof {
            lemma_slot_bounds(self.cc(), self.mv(), index as int, value - 1);
            assert(index as int * self.mv() <= 65535 * 255) by (nonlinear_arith)
                requires
                    index <= 65535,
                    self.mv() <= 255,
            ;
        }
        (index as usize * self.max_value as usize) + value as usize - 1
    }

    /// Whether `value` is still a candidate of the cell at `index`.
    pub fn has_remaining_value(&self, index: u16, value: u8) -> (r: bool)
        requires
            self.wf(),
            index < self.cell_count,
            1 <= value <= self.max_value,
        ensures
            r == self.has_cand(index as int, value as int),
    {
        let k = self.cand_index(index, value);
        bits_get(&self.remaining_values, k)
    }

    /// Marks `value` as a candidate of the cell at `index` again, keeping the
    /// per-cell and grid-wide counters in step. Returns whether anything
    /// changed; repeating the call changes nothing further.
    pub fn set_remaining_value(&mut self, index: u16, value: u8) -> (changed: bool)
        requires
            old(self).wf(),
            index < old(self).cell_count,
            1 <= value <= old(self).max_value,
        ensures
            final(self).wf(),
            changed == !old(self).has_cand(index as int, value as int),
            final(self).has_cand(index as int, value as int),
            final(self).bits() =~= old(self).bits().update(
                index as int * old(self).mv() + value - 1,
                true,
            ),
            final(self).same_shape(*old(self)),
            final(self).values@ == old(self).values@,
            final(self).unsolved_cell_count == old(self).unsolved_cell_count,
            forall|i: int|
                0 <= i < old(self).cc() && i != index as int ==> #[trigger] final(self).cand_slice(
                    i,
                ) == old(self).cand_slice(i),
            final(self).cand_slice(index as int) =~= old(self).cand_slice(index as int).update(
                value - 1,
                true,
            ),
            final(self).cand_count(index as int) == old(self).cand_count(index as int) + (
            if changed {
                1int
            } else {
                0int
            }),
    {
        let k = self.cand_index(index, value);
        if !bits_get(&self.remaining_values, k) {
            let ghost g1 = *self;
            proof {
                lemma_slot_bounds(g1.cc(), g1.mv(), index as int, value - 1);
                lemma_count_true_update(g1.cand_slice(index as int), value - 1, true);
                lemma_count_true_le(g1.cand_slice(index as int).update(value - 1, true));
                assert forall|i: int| 0 <= i < g1.cc() implies #[trigger] g1.cand_count(i)
                    <= 255 by {
                    assert(g1.remaining_value_counts[i] as nat == g1.cand_count(i));
                }
                lemma_total_cands_le(g1, g1.cc(), 255);
                assert(g1.cc() * 255 <= 65535 * 255) by (nonlinear_arith)
                    requires
                        g1.cc() <= 65535,
                ;
                lemma_total_cands_at(g1, g1.cc(), index as int);
            }
            bits_set(&mut self.remaining_values, k, true);
            let c = self.remaining_value_counts[index as usize];
            self.remaining_value_counts[index as usize] = c + 1;
            self.remaining_value_count = self.remaining_value_count + 1;
            proof {
                lemma_bits_update_slices(g1, *self, index as int, value - 1, true);
                lemma_total_cands_reindex(g1, *self, index as int, g1.cc());
                assert forall|i: int| 0 <= i < self.cc() implies #[trigger] self.remaining_value_counts[i]
                    as nat == self.cand_count(i) by {
                    if i != index as int {
                        assert(self.cand_slice(i) == g1.cand_slice(i));
                    }
                }
            }
            true
        } else {
            proof {
                assert(self.bits() =~= self.bits().update(
                    index as int * self.mv() + value - 1,
                    true,
                ));
                lemma_has_cand_slice(*self, index as int, value as int);
                assert(self.cand_slice(index as int) =~= self.cand_slice(index as int).update(
                    value - 1,
                    true,
                ));
            }
            false
        }
    }

    /// Removes `value` from the candidates of the cell at `index`, keeping
    /// the counters in step. Returns whether anything changed; repeating the
    /// call changes nothing further.
    pub fn clear_remaining_value(&mut self, index: u16, value: u8) -> (changed: bool)
        requires
            old(self).wf(),
            index < old(self).cell_count,
            1 <= value <= old(self).max_value,
        ensures
            final(self).wf(),
            changed == old(self).has_cand(index as int, value as int),
            !final(self).has_cand(index as int, value as int),
            final(self).bits() =~= old(self).bits().update(
                index as int * old(self).mv() + value - 1,
                false,
            ),
            final(self).same_shape(*old(self)),
            final(self).values@ == old(self).values@,
            final(self).unsolved_cell_count == old(self).unsolved_cell_count,
            forall|i: int|
                0 <= i < old(self).cc() && i != index as int ==> #[trigger] final(self).cand_slice(
                    i,
                ) == old(self).cand_slice(i),
            final(self).cand_slice(index as int) =~= old(self).cand_slice(index as int).update(
                value - 1,
                false,
            ),
            final(self).cand_count(index as int) + (if changed {
                1int
            } else {
                0int
            }) == old(self).cand_count(index as int),
    {
        let k = self.cand_index(index, value);
        if bits_get(&self.remaining_values, k) {
            let ghost g1 = *self;
            proof {
                lemma_slot_bounds(g1.cc(), g1.mv(), index as int, value - 1);
                lemma_count_true_update(g1.cand_slice(index as int), value - 1, false);
                lemma_count_true_at(g1.cand_slice(index as int), value - 1);
                lemma_total_cands_at(g1, g1.cc(), index as int);
            }
            bits_set(&mut self.remaining_values, k, false);
            let c = self.remaining_value_counts[index as usize];
            self.remaining_value_counts[index as usize] = c - 1;
            self.remaining_value_count = self.remaining_value_count - 1;
            proof {
                lemma_bits_update_slices(g1, *self, index as int, value - 1, false);
                lemma_total_cands_reindex(g1, *self, index as int, g1.cc());
                assert forall|i: int| 0 <= i < self.cc() implies #[trigger] self.remaining_value_counts[i]
                    as nat == self.cand_count(i) by {
                    if i != index as int {
                        assert(self.cand_slice(i) == g1.cand_slice(i));
                    }
                }
            }
            true
        } else {
            proof {
                assert(self.bits() =~= self.bits().update(
                    index as int * self.mv() + value - 1,
                    false,
                ));
                lemma_has_cand_slice(*self, index as int, value as int);
                assert(self.cand_slice(index as int) =~= self.cand_slice(index as int).update(
                    value - 1,
                    false,
                ));
            }
            false
        }
    }

    /// The single candidate left for the cell at `index`.
    pub fn one_remaining_value(&self, index: u16) -> (value: u8)
        requires
            self.wf(),
            index < self.cell_count,
            self.remaining_value_counts@[index as int] == 1,
        ensures
            1 <= value <= self.max_value,
            self.has_cand(index as int, value as int),
            forall|v: int| 1 <= v <= self.mv() && self.has_cand(index as int, v) ==> v == value,
    {
        let mut k: u8 = 0;
        while k < self.max_value
            invariant
                self.wf(),
                index < self.cell_count,
                self.remaining_value_counts@[index as int] == 1,
                0 <= k <= self.max_value,
                forall|v: int| 1 <= v <= k ==> !self.has_cand(index as int, v),
            decreases self.max_value - k,
        {
            let value = k + 1;
            if self.has_remaining_value(index, value) {
                proof {
                    lemma_slot_bounds(self.cc(), self.mv(), index as int, value - 1);
                    let s = self.cand_slice(index as int);
                    assert forall|v: int|
                        1 <= v <= self.mv() && self.has_cand(index as int, v) implies v
                        == value as int by {
                        if v != value as int {
                            assert(s[v - 1] == self.has_cand(index as int, v));
                            assert(s[value - 1] == self.has_cand(index as int, value as int));
                            if v < value as int {
                                lemma_count_true_two(s, v - 1, value - 1);
                            } else {
                                lemma_count_true_two(s, value - 1, v - 1);
                            }
                        }
                    }
                }
                return value;
            }
            k = k + 1;
        }
        proof {
            lemma_slot_bounds(self.cc(), self.mv(), index as int, 0);
            let s = self.cand_slice(index as int);
            assert forall|j: int| 0 <= j < s.len() implies !s[j] by {
                assert(s[j] == self.has_cand(index as int, j + 1));
                assert(!self.has_cand(index as int, j + 1));
            }
            lemma_count_true_none(s);
            assert(false);
        }
        1
    }

    /// The first empty cell forced down to a single remaining candidate, if
    /// any cell is.
    #[verifier::loop_isolation(false)]
    pub fn first_single_candidate(&self) -> (r: Option<u16>)
        requires
            self.wf(),
        ensures
            match r {
                Some(idx) => idx < self.cell_count && self.values@[idx as int] == NO_VALUE
                    && self.remaining_value_counts@[idx as int] == 1,
                None => forall|i: int|
                    0 <= i < self.cc() && self.values@[i] == NO_VALUE
                        ==> #[trigger] self.remaining_value_counts@[i] != 1,
            },
    {
        let mut i: u16 = 0;
        while i < self.cell_count
            invariant
                i <= self.cell_count,
                forall|p: int|
                    0 <= p < i && self.values@[p] == NO_VALUE
                        ==> #[trigger] self.remaining_value_counts@[p] != 1,
            decreases self.cell_count - i,
        {
            if self.values[i as usize] == NO_VALUE && self.remaining_value_counts[i as usize]
                == 1 {
                return Some(i);
            }
            i = i + 1;
        }
        None
    }

    /// The first cell that holds no value yet.
    #[verifier::loop_isolation(false)]
    pub fn first_empty_cell(&self) -> (idx: u16)
        requires
            self.wf(),
            self.unsolved_cell_count > 0,
        ensures
            idx < self.cell_count,
            self.values@[idx as int] == NO_VALUE,
            forall|p: int| 0 <= p < idx ==> #[trigger] self.values@[p] != NO_VALUE,
    {
        let mut i: u16 = 0;
        while i < self.cell_count
            invariant
                i <= self.cell_count,
                forall|p: int| 0 <= p < i ==> #[trigger] self.values@[p] != NO_VALUE,
            decreases self.cell_count - i,
        {
            if self.values[i as usize] == NO_VALUE {
                return i;
            }
            i = i + 1;
        }
        proof {
            crate::counting::lemma_count_eq_none(self.values@, NO_VALUE, self.cc());
            assert(false);
        }
        0
    }

    /// How many cells already hold a value.
    pub fn solved_cell_count(&self) -> (n: u16)
        requires
            self.wf(),
        ensures
            n == self.cc() - self.unsolved_cell_count as int,
    {
        proof {
            lemma_count_eq_le(self.values@, NO_VALUE, self.cc());
        }
        self.cell_count - self.unsolved_cell_count
    }

    /// A full copy of this grid, for one search branch to mutate on its own.
    pub fn fork(&self) -> (g: Grid)
        ensures
            g.same_state(*self),
            g.values@ == self.values@,
            g.bits() == self.bits(),
            g.unsolved_cell_count == self.unsolved_cell_count,
    {
        Grid {
            width: self.width,
            height: self.height,
            block_width: self.block_width,
            block_height: self.block_height,
            block_col_count: self.block_col_count,
            block_row_count: self.block_row_count,
            block_count: self.block_count,
            block_cell_count: self.block_cell_count,
            cell_count: self.cell_count,
            unsolved_cell_count: self.unsolved_cell_count,
            max_value: self.max_value,
            max_related_cell_count: self.max_related_cell_count,
            symbols: clone_chars(&self.symbols),
            values: clone_u8s(&self.values),
            remaining_value_count: self.remaining_value_count,
            remaining_value_counts: clone_u8s(&self.remaining_value_counts),
            remaining_values: bits_clone(&self.remaining_values),
            related_cell_indexes: clone_u16s(&self.related_cell_indexes),
        }
    }
}

/// Whether cell `i` appears among the first `upto` relation slots of `cell`.
pub open spec fn touched_by(table: Seq<u16>, mrcc: int, cell: int, upto: int, i: int) -> bool {
    exists|k2: int| 0 <= k2 < upto && #[trigger] table[cell * mrcc + k2] == i
}

impl Grid {
    /// Whether some cell related to `index` currently holds `value`.
    #[verifier::loop_isolation(false)]
    pub fn related_has_value(&self, index: u16, value: u8) -> (r: bool)
        requires
            self.wf(),
            index < self.cell_count,
        ensures
            r == exists|j: int|
                0 <= j < self.cc() && #[trigger] self.is_related(index as int, j)
                    && self.values[j] == value,
    {
        let mrcc = self.max_related_cell_count as usize;
        proof {
            assert(index as int * self.mrcc() <= 65535 * 65535 && index as int * self.mrcc()
                + self.mrcc() <= self.cc() * self.mrcc()) by (nonlinear_arith)
                requires
                    0 <= (index as int) && (index as int) < self.cc(),
                    self.cc() <= 65536,
                    0 <= self.mrcc() <= 65535,
            ;
        }
        let base = index as usize * mrcc;
        let mut k: usize = 0;
        while k < mrcc
            invariant
                k <= mrcc,
                forall|k2: int|
                    0 <= k2 < k ==> {
                        let j = #[trigger] self.related_cell_indexes@[index as int * self.mrcc()
                            + k2];
                        j == index || self.values[j as int] != value
                    },
            decreases mrcc - k,
        {
            let j = self.related_cell_indexes[base + k];
            if j != index && self.values[j as usize] == value {
                proof {
                    assert(self.related_cell_indexes@[index as int * self.mrcc() + k as int] == j);
                    assert(self.is_related(index as int, j as int));
                }
                return true;
            }
            k = k + 1;
        }
        proof {
            assert forall|j: int|
                0 <= j < self.cc() && #[trigger] self.is_related(index as int, j) implies self.values[j]
                != value by {
                let k0 = choose|k0: int|
                    0 <= k0 < self.mrcc() && #[trigger] self.related_cell_indexes@[index as int
                        * self.mrcc() + k0] == j;
                assert(self.related_cell_indexes@[index as int * self.mrcc() + k0] == j);
            }
        }
        false
    }

    /// Removes every candidate of the cell at `index`, keeping the counters
    /// in step.
    #[verifier::loop_isolation(false)]
    fn clear_remaining_values(&mut self, index: u16)
        requires
            old(self).wf(),
            index < old(self).cell_count,
        ensures
            final(self).wf(),
            final(self).same_shape(*old(self)),
            final(self).values@ == old(self).values@,
            final(self).unsolved_cell_count == old(self).unsolved_cell_count,
            forall|i: int|
                0 <= i < old(self).cc() && i != index as int ==> #[trigger] final(self).cand_slice(
                    i,
                ) == old(self).cand_slice(i),
            forall|v: int|
                1 <= v <= old(self).mv() ==> !final(self).has_cand(index as int, v),
            final(self).cand_count(index as int) == 0,
    {
        let ghost g0 = *self;
        let mut v: u16 = 1;
        while v <= self.max_value as u16
            invariant
                self.wf(),
                self.same_shape(g0),
                self.values@ == g0.values@,
                self.unsolved_cell_count == g0.unsolved_cell_count,
                1 <= v <= self.max_value + 1,
                forall|i: int|
                    0 <= i < g0.cc() && i != index as int ==> #[trigger] self.cand_slice(i)
                        == g0.cand_slice(i),
                forall|u: int| 1 <= u < v ==> !self.has_cand(index as int, u),
            decreases self.max_value + 1 - v,
        {
            let ghost pre = *self;
            self.clear_remaining_value(index, v as u8);
            proof {
                assert((v as u8) as int == v as int);
                assert forall|u: int| 1 <= u < v + 1 implies !self.has_cand(index as int, u) by {
                    lemma_has_cand_slice(*self, index as int, u);
                    lemma_has_cand_slice(pre, index as int, u);
                    if u < v {
                        assert(!pre.has_cand(index as int, u));
                        assert(self.cand_slice(index as int)[u - 1] == pre.cand_slice(
                            index as int,
                        )[u - 1]);
                    }
                }
            }
            v = v + 1;
        }
        proof {
            lemma_has_cand_slice(*self, index as int, 1);
            let s = self.cand_slice(index as int);
            assert forall|q: int| 0 <= q < s.len() implies !s[q] by {
                lemma_has_cand_slice(*self, index as int, q + 1);
            }
            lemma_count_true_none(s);
        }
    }

    /// Assigns `value` to the empty cell at `index`: marks it filled, drops
    /// its own candidates, and removes `value` from the candidates of every
    /// related, still-empty cell. Returns the propagation-failure signal:
    /// whether some related empty cell is left with no candidate at all.
    #[verifier::loop_isolation(false)]
    pub fn set_value(&mut self, index: u16, value: u8) -> (conflict: bool)
        requires
            old(self).wf(),
            old(self).table_symmetric(),
            old(self).cands_sound(),
            index < old(self).cell_count,
            1 <= value <= old(self).max_value,
            old(self).values[index as int] == NO_VALUE,
            old(self).has_cand(index as int, value as int),
        ensures
            final(self).wf(),
            final(self).cands_sound(),
            final(self).same_shape(*old(self)),
            final(self).values@ == old(self).values@.update(index as int, value),
            final(self).unsolved_cell_count == old(self).unsolved_cell_count - 1,
            old(self).no_conflicts() ==> final(self).no_conflicts(),
            conflict == exists|j: int|
                0 <= j < final(self).cc() && final(self).values[j] == NO_VALUE
                    && #[trigger] final(self).is_related(index as int, j)
                    && final(self).cand_count(j) == 0,
            !conflict && old(self).viable() ==> final(self).viable(),
    {
        let ghost g0 = *self;
        proof {
            lemma_count_eq_at(self.values@, NO_VALUE, self.cc(), index as int);
        }
        self.clear_remaining_values(index);
        let ghost g1 = *self;

        let mrcc = self.max_related_cell_count as usize;
        proof {
            assert(index as int * self.mrcc() <= 65535 * 65535 && index as int * self.mrcc()
                + self.mrcc() <= self.cc() * self.mrcc()) by (nonlinear_arith)
                requires
                    0 <= (index as int) && (index as int) < self.cc(),
                    self.cc() <= 65536,
                    0 <= self.mrcc() <= 65535,
            ;
        }
        let base = index as usize * mrcc;
        let ghost table = self.related_cell_indexes@;
        let mut conflict = false;
        let mut k: usize = 0;
        while k < mrcc
            invariant
                self.wf(),
                self.same_shape(g0),
                self.values@ == g0.values@,
                self.unsolved_cell_count == g0.unsolved_cell_count,
                k <= mrcc,
                forall|i: int|
                    0 <= i < g0.cc() && i != index as int && (g0.values[i] != NO_VALUE
                        || !touched_by(table, g0.mrcc(), index as int, k as int, i))
                        ==> #[trigger] self.cand_slice(i) == g1.cand_slice(i),
                forall|i: int|
                    0 <= i < g0.cc() && i != index as int && g0.values[i] == NO_VALUE && touched_by(
                        table,
                        g0.mrcc(),
                        index as int,
                        k as int,
                        i,
                    ) ==> #[trigger] self.cand_slice(i) == g1.cand_slice(i).update(
                        value - 1,
                        false,
                    ),
                self.cand_slice(index as int) == g1.cand_slice(index as int),
                conflict ==> exists|j: int|
                    0 <= j < g0.cc() && self.values[j] == NO_VALUE && #[trigger] self.is_related(
                        index as int,
                        j,
                    ) && self.cand_count(j) == 0,
                !conflict ==> forall|i: int|
                    0 <= i < g0.cc() && i != index as int && self.values[i] == NO_VALUE
                        && touched_by(table, g0.mrcc(), index as int, k as int, i)
                        ==> #[trigger] self.cand_count(i) >= 1,
            decreases mrcc - k,
        {
            let ghost pre = *self;
            let j = self.related_cell_indexes[base + k];
            proof {
                assert(table[index as int * g0.mrcc() + k as int] == j);
            }
            if j != index && self.values[j as usize] == NO_VALUE {
                self.clear_remaining_value(j, value);
                if self.remaining_value_counts[j as usize] == 0 {
                    conflict = true;
                    proof {
                        assert(self.is_related(index as int, j as int));
                        assert(self.cand_count(j as int) == 0);
                    }
                }
            }
            proof {
                let kk = k as int + 1;
                let mr = g0.mrcc();
                let idx = index as int;
                assert forall|i: int|
                    0 <= i < g0.cc() && i != idx && (g0.values[i] != NO_VALUE || !touched_by(
                        table,
                        mr,
                        idx,
                        kk,
                        i,
                    )) implies #[trigger] self.cand_slice(i) == g1.cand_slice(i) by {
                    if touched_by(table, mr, idx, k as int, i) {
                        let k2 = choose|k2: int|
                            0 <= k2 < k as int && #[trigger] table[idx * mr + k2] == i;
                        assert(touched_by(table, mr, idx, kk, i));
                    }
                    assert(pre.cand_slice(i) == g1.cand_slice(i));
                    if j != index && g0.values[j as int] == NO_VALUE && i == j as int {
                        assert(touched_by(table, mr, idx, kk, i)) by {
                            assert(table[idx * mr + k as int] == i);
                        }
                        assert(false);
                    } else {
                        assert(self.cand_slice(i) == pre.cand_slice(i));
                    }
                }
                assert forall|i: int|
                    0 <= i < g0.cc() && i != idx && g0.values[i] == NO_VALUE && touched_by(
                        table,
                        mr,
                        idx,
                        kk,
                        i,
                    ) implies #[trigger] self.cand_slice(i) == g1.cand_slice(i).update(
                        value - 1,
                        false,
                    ) by {
                    lemma_has_cand_slice(*self, i, value as int);
                    lemma_has_cand_slice(pre, i, value as int);
                    lemma_has_cand_slice(g1, i, value as int);
                    if touched_by(table, mr, idx, k as int, i) {
                        assert(pre.cand_slice(i) == g1.cand_slice(i).update(value - 1, false));
                        if j != index && g0.values[j as int] == NO_VALUE && i == j as int {
                            assert(self.cand_slice(i) =~= pre.cand_slice(i).update(
                                value - 1,
                                false,
                            ));
                            assert(self.cand_slice(i) =~= g1.cand_slice(i).update(
                                value - 1,
                                false,
                            ));
                            assert(self.cand_slice(i) == g1.cand_slice(i).update(value - 1, false));
                        } else {
                            assert(self.cand_slice(i) == pre.cand_slice(i));
                        }
                    } else {
                        let k2 = choose|k2: int| 0 <= k2 < kk && #[trigger] table[idx * mr + k2]
                            == i;
                        assert(k2 == k as int);
                        assert(i == j as int);
                        assert(pre.cand_slice(i) == g1.cand_slice(i));
                        assert(self.cand_slice(i) =~= pre.cand_slice(i).update(value - 1, false));
                        assert(self.cand_slice(i) == g1.cand_slice(i).update(value - 1, false));
                    }
                }
                if conflict {
                    if j != index && g0.values[j as int] == NO_VALUE
                        && self.remaining_value_counts[j as int] == 0 {
                        assert(self.is_related(idx, j as int));
                        assert(self.cand_count(j as int) == 0);
                    } else {
                        let j0 = choose|j0: int|
                            0 <= j0 < g0.cc() && pre.values[j0] == NO_VALUE
                                && #[trigger] pre.is_related(idx, j0) && pre.cand_count(j0) == 0;
                        if j0 == j as int && j != index && pre.values[j as int] == NO_VALUE {
                            assert(self.cand_count(j0) == 0);
                        } else {
                            assert(self.cand_slice(j0) == pre.cand_slice(j0));
                            assert(self.cand_count(j0) == 0);
                        }
                        assert(self.is_related(idx, j0) && self.values[j0] == NO_VALUE);
                    }
                    assert(exists|j2: int|
                        0 <= j2 < g0.cc() && self.values[j2] == NO_VALUE
                            && #[trigger] self.is_related(idx, j2) && self.cand_count(j2) == 0);
                } else {
                    assert forall|i: int|
                        0 <= i < g0.cc() && i != idx && self.values[i] == NO_VALUE && touched_by(
                            table,
                            mr,
                            idx,
                            kk,
                            i,
                        ) implies #[trigger] self.cand_count(i) >= 1 by {
                        let k2 = choose|k2: int|
                            0 <= k2 < kk && #[trigger] table[idx * mr + k2] == i;
                        if k2 < k as int {
                            assert(touched_by(table, mr, idx, k as int, i));
                            assert(pre.cand_count(i) >= 1);
                            if i == j as int && j != index && pre.values[j as int] == NO_VALUE {
                                assert(self.remaining_value_counts[i] as nat == self.cand_count(
                                    i,
                                ));
                            } else {
                                assert(self.cand_slice(i) == pre.cand_slice(i));
                            }
                        } else {
                            assert(i == j as int);
                            assert(self.remaining_value_counts[i] as nat == self.cand_count(i));
                        }
                    }
                }
            }
            k = k + 1;
        }

        let ghost g2 = *self;
        self.values[index as usize] = value;
        let u = self.unsolved_cell_count;
        self.unsolved_cell_count = u - 1;
        proof {
            let idx = index as int;
            let cc = g0.cc();
            let mv = g0.mv();
            let mr = g0.mrcc();
            crate::counting::lemma_count_eq_update(g2.values@, NO_VALUE, cc, idx, value);
            assert(self.values@ =~= g0.values@.update(idx, value));

            // relations never changed, and `touched_by` over all slots is
            // exactly `is_related` (for cells other than `index`)
            assert forall|i: int|
                0 <= i < cc && i != idx implies (touched_by(table, mr, idx, mr, i)
                == g0.is_related(idx, i)) by {}

            // every cell's candidate slice in the final state
            assert forall|i: int, v2: int| 0 <= i < cc && 1 <= v2 <= mv implies #[trigger] self.cand_ok(
                i,
                v2,
            ) by {
                lemma_has_cand_slice(*self, i, v2);
                lemma_has_cand_slice(g0, i, v2);
                lemma_has_cand_slice(g1, i, v2);
                lemma_has_cand_slice(g2, i, v2);
                assert(self.cand_slice(i) =~= g2.cand_slice(i));
                assert(g0.cand_ok(i, v2));
                if i == idx {
                    assert(g2.cand_slice(i) == g1.cand_slice(i));
                    assert(!g1.has_cand(i, v2));
                    assert(!self.has_cand(i, v2));
                    assert(self.values[i] == value);
                } else {
                    assert(self.values[i] == g0.values[i]);
                    if g0.values[i] != NO_VALUE {
                        assert(g2.cand_slice(i) == g1.cand_slice(i));
                        assert(g1.cand_slice(i) == g0.cand_slice(i));
                        assert(!g0.has_cand(i, v2));
                        assert(!self.has_cand(i, v2));
                        assert(!self.value_allowed(i, v2));
                    } else {
                        if g0.is_related(idx, i) {
                            assert(touched_by(table, mr, idx, mr, i));
                            assert(g2.cand_slice(i) == g1.cand_slice(i).update(value - 1, false));
                            assert(g1.cand_slice(i) == g0.cand_slice(i));
                            if v2 == value as int {
                                assert(!self.has_cand(i, v2));
                                assert(self.is_related(i, idx));
                                assert(self.values[idx] == value);
                                assert(!self.value_allowed(i, v2));
                            } else {
                                assert(self.cand_slice(i)[v2 - 1] == g0.cand_slice(i)[v2 - 1]);
                                assert(self.has_cand(i, v2) == g0.has_cand(i, v2));
                                assert(self.value_allowed(i, v2) == g0.value_allowed(i, v2)) by {
                                    lemma_value_allowed_update(g0, *self, i, v2, idx, value);
                                }
                            }
                        } else {
                            assert(!touched_by(table, mr, idx, mr, i));
                            assert(g2.cand_slice(i) == g1.cand_slice(i));
                            assert(g1.cand_slice(i) == g0.cand_slice(i));
                            assert(self.has_cand(i, v2) == g0.has_cand(i, v2));
                            assert(!g0.is_related(i, idx)) by {
                                if g0.is_related(i, idx) {
                                    assert(g0.is_related(idx, i));
                                }
                            }
                            assert(self.value_allowed(i, v2) == g0.value_allowed(i, v2)) by {
                                lemma_value_allowed_update(g0, *self, i, v2, idx, value);
                            }
                        }
                    }
                }
            }

            // the propagation-failure signal is exact
            assert(conflict == exists|j: int|
                0 <= j < cc && self.values[j] == NO_VALUE && #[trigger] self.is_related(idx, j)
                    && self.cand_count(j) == 0) by {
                if conflict {
                    let j = choose|j: int|
                        0 <= j < cc && g2.values[j] == NO_VALUE && #[trigger] g2.is_related(idx, j)
                            && g2.cand_count(j) == 0;
                    assert(j != idx);
                    assert(self.values[j] == NO_VALUE);
                    assert(self.cand_slice(j) =~= g2.cand_slice(j));
                    assert(self.is_related(idx, j) && self.cand_count(j) == 0);
                } else {
                    assert forall|j: int|
                        0 <= j < cc && self.values[j] == NO_VALUE && #[trigger] self.is_related(
                            idx,
                            j,
                        ) implies self.cand_count(j) != 0 by {
                        assert(j != idx);
                        assert(g2.values[j] == NO_VALUE);
                        assert(touched_by(table, mr, idx, mr, j));
                        assert(g2.cand_count(j) >= 1);
                        assert(self.cand_slice(j) =~= g2.cand_slice(j));
                    }
                }
            }

            // no new conflict among assigned values
            if g0.no_conflicts() {
                assert forall|i: int, j: int|
                    0 <= i < cc && 0 <= j < cc && #[trigger] self.is_related(i, j) && self.values[i]
                        != NO_VALUE implies self.values[i] != self.values[j] by {
                    assert(g0.cand_ok(idx, value as int));
                    assert(g0.value_allowed(idx, value as int));
                    if i == idx {
                        assert(g0.is_related(idx, j));
                        assert(g0.values[j] != value);
                        assert(self.values[j] == g0.values[j]);
                    } else if j == idx {
                        assert(g0.is_related(i, idx));
                        assert(g0.is_related(idx, i));
                        assert(g0.values[i] != value);
                        assert(self.values[i] == g0.values[i]);
                    } else {
                        assert(g0.is_related(i, j));
                        assert(self.values[i] == g0.values[i]);
                        assert(self.values[j] == g0.values[j]);
                    }
                }
            }

            // a conflict-free assignment keeps every empty cell viable
            if !conflict && g0.viable() {
                assert forall|i: int|
                    0 <= i < cc && self.values[i] == NO_VALUE implies #[trigger] self.cand_count(i)
                    >= 1 by {
                    assert(i != idx);
                    assert(g2.values[i] == NO_VALUE);
                    assert(self.cand_slice(i) =~= g2.cand_slice(i));
                    if touched_by(table, mr, idx, mr, i) {
                        assert(g2.cand_count(i) >= 1);
                    } else {
                        assert(g2.cand_slice(i) == g1.cand_slice(i));
                        assert(g1.cand_slice(i) == g0.cand_slice(i));
                        assert(g0.cand_count(i) >= 1);
                    }
                }
            }

            // counters: the value write changed no bit and no cached count
            assert forall|i: int| 0 <= i < cc implies #[trigger] self.remaining_value_counts[i]
                as nat == self.cand_count(i) by {
                assert(self.cand_slice(i) =~= g2.cand_slice(i));
                assert(g2.remaining_value_counts[i] as nat == g2.cand_count(i));
            }
            lemma_total_cands_reindex(g2, *self, 0, cc);
            assert(self.cand_slice(0) =~= g2.cand_slice(0));
        }
        conflict
    }
}

/// Two grids with the same values and relation table agree on which values
/// are open for which cells.
proof fn lemma_value_allowed_same(g1: Grid, g2: Grid, i: int, v: int)
    requires
        g1.values@ == g2.values@,
        g1.related_cell_indexes@ == g2.related_cell_indexes@,
        g1.max_related_cell_count == g2.max_related_cell_count,
        g1.cell_count == g2.cell_count,
    ensures
        g1.value_allowed(i, v) == g2.value_allowed(i, v),
{
    assert(forall|j: int| #[trigger] g1.is_related(i, j) == g2.is_related(i, j));
    if g1.value_allowed(i, v) {
        assert forall|j: int|
            0 <= j < g2.cc() && #[trigger] g2.is_related(i, j) implies g2.values[j] != v by {
            assert(g1.is_related(i, j));
        }
    }
    if g2.value_allowed(i, v) {
        assert forall|j: int|
            0 <= j < g1.cc() && #[trigger] g1.is_related(i, j) implies g1.values[j] != v by {
            assert(g2.is_related(i, j));
        }
    }
}

/// Two grids with the same relation table are symmetric together.
pub proof fn lemma_symmetric_same(g1: Grid, g2: Grid)
    requires
        g1.related_cell_indexes@ == g2.related_cell_indexes@,
        g1.max_related_cell_count == g2.max_related_cell_count,
        g1.cell_count == g2.cell_count,
    ensures
        g1.table_symmetric() == g2.table_symmetric(),
{
    assert(forall|i: int, j: int| #[trigger] g1.is_related(i, j) == g2.is_related(i, j));
    if g1.table_symmetric() {
        assert forall|i: int, j: int|
            0 <= i < g2.cc() && 0 <= j < g2.cc() && #[trigger] g2.is_related(i, j) implies g2.is_related(
            j,
            i,
        ) by {
            assert(g1.is_related(i, j));
            assert(g1.is_related(j, i));
        }
    }
    if g2.table_symmetric() {
        assert forall|i: int, j: int|
            0 <= i < g1.cc() && 0 <= j < g1.cc() && #[trigger] g1.is_related(i, j) implies g1.is_related(
            j,
            i,
        ) by {
            assert(g2.is_related(i, j));
            assert(g2.is_related(j, i));
        }
    }
}

/// When only the value of cell `c` changes, and it changes away from empty to
/// a value other than `v`, whether `v` stays open for another empty cell `i`
/// not related to `c` with value `v` in play is unchanged.
proof fn lemma_value_allowed_update(g0: Grid, g2: Grid, i: int, v: int, c: int, value: u8)
    requires
        g2.values@ == g0.values@.update(c, value),
        g2.related_cell_indexes@ == g0.related_cell_indexes@,
        g2.max_related_cell_count == g0.max_related_cell_count,
        g2.cell_count == g0.cell_count,
        g0.values@.len() == g0.cc(),
        0 <= c < g0.cc(),
        0 <= i < g0.cc(),
        i != c,
        v != NO_VALUE as int,
        value != NO_VALUE,
        g0.values[c] == NO_VALUE,
        v != value as int || !g0.is_related(i, c),
    ensures
        g2.value_allowed(i, v) == g0.value_allowed(i, v),
{
    assert(forall|j: int| #[trigger] g2.is_related(i, j) == g0.is_related(i, j));
    if g0.value_allowed(i, v) {
        assert forall|j: int|
            0 <= j < g2.cc() && #[trigger] g2.is_related(i, j) implies g2.values[j] != v by {
            if j == c {
                assert(g0.is_related(i, c));
                assert(g2.values[j] == value && v != value as int);
            } else {
                assert(g2.values[j] == g0.values[j]);
            }
        }
    }
    if g2.value_allowed(i, v) {
        assert forall|j: int|
            0 <= j < g0.cc() && #[trigger] g0.is_related(i, j) implies g0.values[j] != v by {
            if j == c {
                assert(g0.values[j] == NO_VALUE);
            } else {
                assert(g2.is_related(i, j));
                assert(g0.values[j] == g2.values[j]);
            }
        }
    }
}

impl Grid {
    /// Rebuilds the candidate slice of one cell from scratch, by scanning the
    /// current values of its related cells.
    #[verifier::loop_isolation(false)]
    pub fn recalc_remaining_values_one_cell(&mut self, index: u16)
        requires
            old(self).wf(),
            index < old(self).cell_count,
        ensures
            final(self).wf(),
            final(self).same_shape(*old(self)),
            final(self).values@ == old(self).values@,
            final(self).unsolved_cell_count == old(self).unsolved_cell_count,
            forall|i: int|
                0 <= i < old(self).cc() && i != index as int ==> #[trigger] final(self).cand_slice(
                    i,
                ) == old(self).cand_slice(i),
            forall|v: int|
                1 <= v <= old(self).mv() ==> #[trigger] final(self).cand_ok(index as int, v),
    {
        if self.values[index as usize] != NO_VALUE {
            self.clear_remaining_values(index);
            proof {
                assert forall|v: int| 1 <= v <= self.mv() implies #[trigger] self.cand_ok(
                    index as int,
                    v,
                ) by {
                    assert(!self.has_cand(index as int, v));
                }
            }
        } else {
            let ghost g0 = *self;
            let mut v: u16 = 1;
            while v <= self.max_value as u16
                invariant
                    self.wf(),
                    self.same_shape(g0),
                    self.values@ == g0.values@,
                    self.unsolved_cell_count == g0.unsolved_cell_count,
                    1 <= v <= self.max_value + 1,
                    forall|i: int|
                        0 <= i < g0.cc() && i != index as int ==> #[trigger] self.cand_slice(i)
                            == g0.cand_slice(i),
                    forall|u: int| 1 <= u < v ==> #[trigger] self.cand_ok(index as int, u),
                decreases self.max_value + 1 - v,
            {
                let ghost pre = *self;
                let vu = v as u8;
                let taken = self.related_has_value(index, vu);
                if taken {
                    self.clear_remaining_value(index, vu);
                } else {
                    self.set_remaining_value(index, vu);
                }
                proof {
                    assert(vu as int == v as int);
                    assert forall|u: int| 1 <= u < v + 1 implies #[trigger] self.cand_ok(
                        index as int,
                        u,
                    ) by {
                        lemma_has_cand_slice(*self, index as int, u);
                        lemma_has_cand_slice(pre, index as int, u);
                        lemma_value_allowed_same(pre, *self, index as int, u);
                        if u < v {
                            assert(pre.cand_ok(index as int, u));
                            assert(self.cand_slice(index as int)[u - 1] == pre.cand_slice(
                                index as int,
                            )[u - 1]);
                        } else {
                            if taken {
                                let jj = choose|jj: int|
                                    0 <= jj < pre.cc() && #[trigger] pre.is_related(
                                        index as int,
                                        jj,
                                    ) && pre.values[jj] == vu;
                                assert(self.is_related(index as int, jj));
                                assert(self.values[jj] == vu);
                                assert(!self.value_allowed(index as int, u));
                                assert(!self.has_cand(index as int, u));
                            } else {
                                assert(self.has_cand(index as int, u));
                                assert forall|j: int|
                                    0 <= j < self.cc() && #[trigger] self.is_related(
                                        index as int,
                                        j,
                                    ) implies self.values[j] != vu by {
                                    assert(pre.is_related(index as int, j));
                                }
                                assert(self.value_allowed(index as int, u));
                            }
                        }
                    }
                }
                v = v + 1;
            }
        }
    }

    /// Rebuilds every cell's candidates from scratch; afterwards the whole
    /// bitset is exact with respect to the assigned values.
    #[verifier::loop_isolation(false)]
    pub fn recalc_remaining_values(&mut self)
        requires
            old(self).wf(),
        ensures
            final(self).wf(),
            final(self).cands_sound(),
            final(self).same_shape(*old(self)),
            final(self).values@ == old(self).values@,
            final(self).unsolved_cell_count == old(self).unsolved_cell_count,
    {
        let ghost g0 = *self;
        let mut index: u16 = 0;
        while index < self.cell_count
            invariant
                self.wf(),
                self.same_shape(g0),
                self.values@ == g0.values@,
                self.unsolved_cell_count == g0.unsolved_cell_count,
                index <= self.cell_count,
                forall|i: int, u: int|
                    0 <= i < index && 1 <= u <= self.mv() ==> #[trigger] self.cand_ok(i, u),
            decreases self.cell_count - index,
        {
            let ghost pre = *self;
            self.recalc_remaining_values_one_cell(index);
            proof {
                assert forall|i: int, u: int|
                    0 <= i < index + 1 && 1 <= u <= self.mv() implies #[trigger] self.cand_ok(
                        i,
                        u,
                    ) by {
                    if i < index as int {
                        assert(pre.cand_ok(i, u));
                        lemma_has_cand_slice(*self, i, u);
                        lemma_has_cand_slice(pre, i, u);
                        assert(self.cand_slice(i) == pre.cand_slice(i));
                        lemma_value_allowed_same(pre, *self, i, u);
                    }
                }
            }
            index = index + 1;
        }
    }

    /// Replaces every assigned value at once, recounts the unsolved cells,
    /// and rebuilds all candidates.
    #[verifier::loop_isolation(false)]
    pub fn replace_values(&mut self, values: &[u8])
        requires
            old(self).wf(),
            values@.len() == old(self).cc(),
            forall|i: int| 0 <= i < values@.len() ==> #[trigger] values@[i] <= old(self).max_value,
        ensures
            final(self).wf(),
            final(self).cands_sound(),
            final(self).same_shape(*old(self)),
            final(self).values@ == values@,
    {
        let ghost g0 = *self;
        let mut new_values: Vec<u8> = Vec::new();
        let mut unsolved: u16 = 0;
        let n = self.cell_count;
        proof {
            lemma_count_eq_le(values@, NO_VALUE, 0);
        }
        for i in 0..n
            invariant
                new_values@ == values@.take(i as int),
                unsolved as nat == count_eq(values@, NO_VALUE, i as int),
                unsolved <= i,
        {
            proof {
                lemma_count_eq_le(values@, NO_VALUE, i as int);
            }
            new_values.push(values[i as usize]);
            if values[i as usize] == NO_VALUE {
                unsolved = unsolved + 1;
            }
            proof {
                assert(new_values@ =~= values@.take(i + 1));
            }
        }
        proof {
            assert(new_values@ =~= values@);
            lemma_count_eq_agree(new_values@, values@, NO_VALUE, self.cc());
        }
        self.values = new_values;
        self.unsolved_cell_count = unsolved;
        proof {
            assert forall|i: int| #[trigger] self.cand_count(i) == g0.cand_count(i) by {
                assert(self.cand_slice(i) =~= g0.cand_slice(i));
            }
            lemma_total_same(*self, g0, self.cc());
        }
        self.recalc_remaining_values();
    }

    /// A grid of the same shape, with the same symbols and relation table,
    /// but with every cell empty and every candidate open again.
    pub fn clone_empty(&self) -> (g: Grid)
        requires
            self.wf(),
        ensures
            g.wf(),
            g.cands_sound(),
            g.same_shape(*self),
            g.unsolved_cell_count == g.cell_count,
            forall|i: int| 0 <= i < g.cc() ==> g.values[i] == NO_VALUE,
    {
        let mut g = Grid::new(self.width, self.height, self.block_width, self.block_height);
        let ghost base = g;
        g.symbols = clone_chars(&self.symbols);
        g.related_cell_indexes = clone_u16s(&self.related_cell_indexes);
        g.max_related_cell_count = self.max_related_cell_count;
        proof {
            assert forall|i: int| #[trigger] g.cand_count(i) == base.cand_count(i) by {
                assert(g.cand_slice(i) =~= base.cand_slice(i));
            }
            lemma_total_same(g, base, g.cc());
            assert forall|i: int, v: int| 0 <= i < g.cc() && 1 <= v <= g.mv() implies #[trigger] g.cand_ok(
                i,
                v,
            ) by {
                lemma_slot_bounds(g.cc(), g.mv(), i, v - 1);
                assert(base.has_cand(i, v));
                assert(g.has_cand(i, v));
                assert forall|j: int|
                    0 <= j < g.cc() && #[trigger] g.is_related(i, j) implies g.values[j] != v by {}
            }
        }
        g
    }

    /// A fresh grid of this shape holding the given assigned values, with all
    /// candidates rebuilt from them.
    pub fn clone_with_value_list(&self, values: Vec<u8>) -> (g: Grid)
        requires
            self.wf(),
            values@.len() == self.cc(),
            forall|i: int| 0 <= i < values@.len() ==> #[trigger] values@[i] <= self.max_value,
        ensures
            g.wf(),
            g.cands_sound(),
            g.same_shape(*self),
            g.values@ == values@,
    {
        let mut g = self.clone_empty();
        g.replace_values(values.as_slice());
        g
    }
}

/// Whether `x` occurs in a list of cell indices.
#[verifier::loop_isolation(false)]
fn list_contains(list: &[u16], x: u16) -> (r: bool)
    ensures
        r == list@.contains(x),
{
    let mut q: usize = 0;
    while q < list.len()
        invariant
            q <= list@.len(),
            forall|p: int| 0 <= p < q ==> list@[p] != x,
        decreases list@.len() - q,
    {
        if list[q] == x {
            return true;
        }
        q = q + 1;
    }
    false
}

impl Grid {
    /// The symbol alphabet fits the grid: either absent, or one distinct
    /// character for every value.
    pub open spec fn symbols_ok(self) -> bool {
        self.symbols@.len() == 0 || (self.symbols@.len() >= self.mv()
            && self.symbols@.no_duplicates())
    }

    /// What the runtime consistency check inspects, beyond what the
    /// operations already guarantee statically: a fitting symbol alphabet, no
    /// two related cells with the same value, and no cell that still counts a
    /// related cell's value among its candidates.
    pub open spec fn invariant_holds(self) -> bool {
        &&& self.symbols_ok()
        &&& self.no_conflicts()
        &&& forall|i: int, j: int|
            0 <= i < self.cc() && 0 <= j < self.cc() && #[trigger] self.is_related(i, j)
                && self.values[i] != NO_VALUE ==> !self.has_cand(j, self.values[i] as int)
    }

    /// Recounts and cross-checks the grid: related-cell conflicts, stale
    /// candidates, and the symbol alphabet. Returns whether all checks pass.
    #[verifier::loop_isolation(false)]
    pub fn check_invariant(&self) -> (r: bool)
        requires
            self.wf(),
        ensures
            r == self.invariant_holds(),
    {
        if self.symbols.len() != 0 {
            if self.symbols.len() < self.max_value as usize {
                return false;
            }
            let uc = unique_count(&self.symbols);
            proof {
                lemma_distinct_count(self.symbols@);
            }
            if uc != self.symbols.len() {
                return false;
            }
        }
        let mrcc = self.max_related_cell_count as usize;
        let mut i: u16 = 0;
        while i < self.cell_count
            invariant
                i <= self.cell_count,
                forall|i2: int, j2: int|
                    0 <= i2 < i && 0 <= j2 < self.cc() && #[trigger] self.is_related(i2, j2)
                        && self.values[i2] != NO_VALUE ==> self.values[i2] != self.values[j2]
                        && !self.has_cand(j2, self.values[i2] as int),
            decreases self.cell_count - i,
        {
            let value = self.values[i as usize];
            if value != NO_VALUE {
                proof {
                    assert(i as int * self.mrcc() + self.mrcc() <= self.cc() * self.mrcc())
                        by (nonlinear_arith)
                        requires
                            0 <= (i as int) && (i as int) < self.cc(),
                            0 <= self.mrcc(),
                    ;
                    assert(i as int * self.mrcc() <= 65535 * 65535) by (nonlinear_arith)
                        requires
                            i <= 65535,
                            0 <= self.mrcc() <= 65535,
                    ;
                }
                let base = i as usize * mrcc;
                let mut k: usize = 0;
                while k < mrcc
                    invariant
                        k <= mrcc,
                        value == self.values@[i as int],
                        value != NO_VALUE,
                        forall|k2: int|
                            0 <= k2 < k ==> {
                                let j = #[trigger] self.related_cell_indexes@[i as int * self.mrcc()
                                    + k2];
                                j == i || (self.values@[j as int] != value && !self.has_cand(
                                    j as int,
                                    value as int,
                                ))
                            },
                    decreases mrcc - k,
                {
                    let j = self.related_cell_indexes[base + k];
                    if j != i {
                        if self.values[j as usize] == value {
                            proof {
                                assert(self.related_cell_indexes@[i as int * self.mrcc()
                                    + k as int] == j);
                                assert(self.is_related(i as int, j as int));
                            }
                            return false;
                        }
                        if self.has_remaining_value(j, value) {
                            proof {
                                assert(self.related_cell_indexes@[i as int * self.mrcc()
                                    + k as int] == j);
                                assert(self.is_related(i as int, j as int));
                            }
                            return false;
                        }
                    }
                    k = k + 1;
                }
                proof {
                    assert forall|j2: int|
                        0 <= j2 < self.cc() && #[trigger] self.is_related(
                            i as int,
                            j2,
                        ) implies self.values@[i as int] != self.values@[j2] && !self.has_cand(
                        j2,
                        value as int,
                    ) by {
                        let k0 = choose|k0: int|
                            0 <= k0 < self.mrcc()
                                && #[trigger] self.related_cell_indexes@[i as int * self.mrcc()
                                + k0] == j2;
                        assert(self.related_cell_indexes@[i as int * self.mrcc() + k0] == j2);
                    }
                }
            }
            i = i + 1;
        }
        true
    }

    /// A list of the candidate values still open for the cell at `index`, in
    /// ascending order.
    #[verifier::loop_isolation(false)]
    pub fn remaining_values(&self, index: u16) -> (r: Vec<u8>)
        requires
            self.wf(),
            index < self.cell_count,
        ensures
            forall|q: int|
                0 <= q < r@.len() ==> 1 <= #[trigger] r@[q] <= self.max_value && self.has_cand(
                    index as int,
                    r@[q] as int,
                ),
            forall|v: int|
                1 <= v <= self.mv() && self.has_cand(index as int, v) ==> r@.contains(v as u8),
            forall|q1: int, q2: int| 0 <= q1 < q2 < r@.len() ==> r@[q1] < r@[q2],
    {
        let mut r: Vec<u8> = Vec::new();
        let mut v: u16 = 1;
        while v <= self.max_value as u16
            invariant
                1 <= v <= self.max_value + 1,
                forall|q: int|
                    0 <= q < r@.len() ==> 1 <= #[trigger] r@[q] < v && self.has_cand(
                        index as int,
                        r@[q] as int,
                    ),
                forall|u: int|
                    1 <= u < v && self.has_cand(index as int, u) ==> r@.contains(u as u8),
                forall|q1: int, q2: int| 0 <= q1 < q2 < r@.len() ==> r@[q1] < r@[q2],
            decreases self.max_value + 1 - v,
        {
            let vu = v as u8;
            if self.has_remaining_value(index, vu) {
                let ghost old_r = r@;
                r.push(vu);
                proof {
                    assert forall|u: int|
                        1 <= u < v + 1 && self.has_cand(index as int, u) implies r@.contains(
                        u as u8,
                    ) by {
                        if u < v {
                            let q = choose|q: int| 0 <= q < old_r.len() && old_r[q] == u as u8;
                            assert(r@[q] == u as u8);
                        } else {
                            assert(r@[r@.len() - 1] == u as u8);
                        }
                    }
                }
            }
            v = v + 1;
        }
        r
    }

    /// The indices of the cells related to the cell at `index`: exactly the
    /// cell's slot block in table order, with the padding slots left out.
    #[verifier::loop_isolation(false)]
    pub fn index_to_related_cell_indexes(&self, index: u16) -> (r: Vec<u16>)
        requires
            self.wf(),
            index < self.cell_count,
        ensures
            r@ == self.related_cell_indexes@.subrange(
                index as int * self.mrcc(),
                index as int * self.mrcc() + self.mrcc(),
            ).filter(|x: u16| x != index),
            forall|q: int|
                0 <= q < r@.len() ==> #[trigger] r@[q] < self.cell_count && self.is_related(
                    index as int,
                    r@[q] as int,
                ),
            forall|j: int|
                0 <= j < self.cc() && #[trigger] self.is_related(index as int, j) ==> r@.contains(
                    j as u16,
                ),
    {
        let mrcc = self.max_related_cell_count as usize;
        proof {
            assert(index as int * self.mrcc() + self.mrcc() <= self.cc() * self.mrcc()
                && index as int * self.mrcc() <= 65535 * 65535) by (nonlinear_arith)
                requires
                    0 <= (index as int) && (index as int) < self.cc(),
                    0 <= self.mrcc() <= 65535,
                    self.cc() <= 65536,
            ;
        }
        let base = index as usize * mrcc;
        let ghost row = self.related_cell_indexes@.subrange(
            index as int * self.mrcc(),
            index as int * self.mrcc() + self.mrcc(),
        );
        let mut r: Vec<u16> = Vec::new();
        let mut k: usize = 0;
        while k < mrcc
            invariant
                k <= mrcc,
                r@ == row.take(k as int).filter(|x: u16| x != index),
                forall|q: int|
                    0 <= q < r@.len() ==> #[trigger] r@[q] < self.cell_count && self.is_related(
                        index as int,
                        r@[q] as int,
                    ),
                forall|k2: int|
                    0 <= k2 < k ==> {
                        let j = #[trigger] self.related_cell_indexes@[index as int * self.mrcc()
                            + k2];
                        j == index || r@.contains(j)
                    },
            decreases mrcc - k,
        {
            let j = self.related_cell_indexes[base + k];
            proof {
                reveal(Seq::filter);
                assert(row[k as int] == j);
                assert(row.take(k + 1).drop_last() =~= row.take(k as int));
                assert(row.take(k + 1).last() == j);
            }
            if j != index {
                let ghost old_r = r@;
                r.push(j);
                proof {
                    assert(self.related_cell_indexes@[index as int * self.mrcc() + k as int] == j);
                    assert(self.is_related(index as int, j as int));
                    assert forall|k2: int| 0 <= k2 < k + 1 implies {
                        let j2 = #[trigger] self.related_cell_indexes@[index as int * self.mrcc()
                            + k2];
                        j2 == index || r@.contains(j2)
                    } by {
                        let j2 = self.related_cell_indexes@[index as int * self.mrcc() + k2];
                        if k2 < k && j2 != index {
                            let q = choose|q: int| 0 <= q < old_r.len() && old_r[q] == j2;
                            assert(r@[q] == j2);
                        } else if k2 == k as int {
                            assert(r@[r@.len() - 1] == j);
                        }
                    }
                }
            }
            k = k + 1;
        }
        proof {
            assert(row.take(mrcc as int) =~= row);
        }
        proof {
            assert forall|j: int|
                0 <= j < self.cc() && #[trigger] self.is_related(index as int, j) implies r@.contains(
                j as u16,
            ) by {
                let k0 = choose|k0: int|
                    0 <= k0 < self.mrcc()
                        && #[trigger] self.related_cell_indexes@[index as int * self.mrcc() + k0]
                        == j;
                assert(self.related_cell_indexes@[index as int * self.mrcc() + k0] == j as u16);
            }
        }
        r
    }

    /// A new grid that keeps this grid's values only at the listed cells
    /// (with `keep`), or only away from them (without), with every
    /// candidate rebuilt from the values that are kept.
    #[verifier::loop_isolation(false)]
    pub fn partial_grid_from_indexes(&self, indexes: &[u16], keep: bool) -> (g: Grid)
        requires
            self.wf(),
        ensures
            g.wf(),
            g.cands_sound(),
            g.same_shape(*self),
            g.values@.len() == self.cc(),
            forall|i: int|
                0 <= i < self.cc() ==> #[trigger] g.values[i] == (if indexes@.contains(i as u16)
                    == keep {
                    self.values@[i]
                } else {
                    NO_VALUE
                }),
    {
        let mut new_values: Vec<u8> = Vec::new();
        let n = self.cell_count;
        for i in 0..n
            invariant
                new_values@.len() == i,
                forall|p: int|
                    0 <= p < i ==> #[trigger] new_values@[p] == (if indexes@.contains(p as u16)
                        == keep {
                        self.values@[p]
                    } else {
                        NO_VALUE
                    }),
        {
            let in_list = list_contains(indexes, i);
            if in_list == keep {
                new_values.push(self.values[i as usize]);
            } else {
                new_values.push(NO_VALUE);
            }
            proof {
                assert((i as int) as u16 == i);
            }
        }
        let mut g = self.clone_empty();
        g.replace_values(new_values.as_slice());
        g
    }

    /// Empties `remove_cell_count` filled cells, chosen at random (or all of
    /// them, if fewer are filled), and rebuilds every candidate.
    #[verifier::loop_isolation(false)]
    pub fn remove_cells(&mut self, remove_cell_count: u16)
        requires
            old(self).wf(),
        ensures
            final(self).wf(),
            final(self).cands_sound(),
            final(self).same_shape(*old(self)),
            forall|i: int|
                0 <= i < old(self).cc() && final(self).values[i] != NO_VALUE
                    ==> final(self).values[i] == old(self).values[i],
            final(self).unsolved_cell_count == old(self).unsolved_cell_count + (
            if remove_cell_count as int <= old(self).cc() - old(self).unsolved_cell_count as int {
                remove_cell_count as int
            } else {
                old(self).cc() - old(self).unsolved_cell_count as int
            }),
    {
        let ghost g0 = *self;
        let mut indexes: Vec<u16> = Vec::new();
        let mut i: u16 = 0;
        while i < self.cell_count
            invariant
                i <= self.cell_count,
                indexes@.len() == i as int - count_eq(self.values@, NO_VALUE, i as int),
                forall|q: int|
                    0 <= q < indexes@.len() ==> #[trigger] indexes@[q] < i
                        && self.values@[indexes@[q] as int] != NO_VALUE,
                forall|q1: int, q2: int|
                    0 <= q1 < q2 < indexes@.len() ==> indexes@[q1] < indexes@[q2],
            decreases self.cell_count - i,
        {
            proof {
                lemma_count_eq_le(self.values@, NO_VALUE, i as int);
            }
            if self.values[i as usize] != NO_VALUE {
                indexes.push(i);
            }
            i = i + 1;
        }
        let mut removed: u16 = 0;
        proof {
            lemma_count_eq_le(g0.values@, NO_VALUE, g0.cc());
        }
        let available = indexes.len() as u16;
        let target = if remove_cell_count < available {
            remove_cell_count
        } else {
            available
        };
        while removed < target
            invariant
                self.wf(),
                self.same_shape(g0),
                self.bits() == g0.bits(),
                removed <= target,
                target <= g0.cc() - g0.unsolved_cell_count as int,
                self.unsolved_cell_count == g0.unsolved_cell_count + removed,
                indexes@.len() == g0.cc() - g0.unsolved_cell_count as int - removed,
                forall|q: int|
                    0 <= q < indexes@.len() ==> #[trigger] indexes@[q] < self.cell_count
                        && self.values@[indexes@[q] as int] != NO_VALUE,
                forall|q1: int, q2: int|
                    0 <= q1 < q2 < indexes@.len() ==> indexes@[q1] < indexes@[q2],
                forall|p: int|
                    0 <= p < g0.cc() && self.values@[p] != NO_VALUE ==> #[trigger] self.values@[p]
                        == g0.values@[p],
            decreases target - removed,
        {
            let ghost pre = *self;
            let r = rand_below(indexes.len());
            let ghost old_indexes = indexes@;
            let index = indexes.remove(r);
            proof {
                lemma_count_eq_lt(self.values@, NO_VALUE, self.cc(), index as int);
                crate::counting::lemma_count_eq_update(
                    self.values@,
                    NO_VALUE,
                    self.cc(),
                    index as int,
                    NO_VALUE,
                );
            }
            self.values[index as usize] = NO_VALUE;
            self.unsolved_cell_count = self.unsolved_cell_count + 1;
            removed = removed + 1;
            proof {
                assert forall|q: int|
                    0 <= q < indexes@.len() implies #[trigger] indexes@[q] < self.cell_count
                        && self.values@[indexes@[q] as int] != NO_VALUE by {
                    if q < r as int {
                        assert(indexes@[q] == old_indexes[q]);
                    } else {
                        assert(indexes@[q] == old_indexes[q + 1]);
                    }
                    assert(indexes@[q] != index);
                }
                assert forall|q1: int, q2: int|
                    0 <= q1 < q2 < indexes@.len() implies indexes@[q1] < indexes@[q2] by {
                    if q1 < r as int {
                        assert(indexes@[q1] == old_indexes[q1]);
                    } else {
                        assert(indexes@[q1] == old_indexes[q1 + 1]);
                    }
                    if q2 < r as int {
                        assert(indexes@[q2] == old_indexes[q2]);
                    } else {
                        assert(indexes@[q2] == old_indexes[q2 + 1]);
                    }
                }
                assert forall|p: int| #[trigger] self.cand_count(p) == pre.cand_count(p) by {
                    assert(self.cand_slice(p) =~= pre.cand_slice(p));
                }
                lemma_total_same(*self, pre, self.cc());
            }
        }
        self.recalc_remaining_values();
    }
}

impl Grid {
    /// Replaces the symbol alphabet in place; nothing else changes.
    pub fn set_symbols(&mut self, symbols: &Vec<char>)
        requires
            old(self).wf(),
        ensures
            final(self).wf(),
            final(self).symbols@ == symbols@,
            final(self).values@ == old(self).values@,
            final(self).bits() == old(self).bits(),
            final(self).unsolved_cell_count == old(self).unsolved_cell_count,
            final(self).related_cell_indexes@ == old(self).related_cell_indexes@,
            final(self).cands_sound() == old(self).cands_sound(),
            final(self).no_conflicts() == old(self).no_conflicts(),
            final(self).viable() == old(self).viable(),
            final(self).table_symmetric() == old(self).table_symmetric(),
            final(self).width == old(self).width,
            final(self).height == old(self).height,
            final(self).block_width == old(self).block_width,
            final(self).block_height == old(self).block_height,
            final(self).cell_count == old(self).cell_count,
            final(self).max_value == old(self).max_value,
            final(self).max_related_cell_count == old(self).max_related_cell_count,
    {
        let ghost g0 = *self;
        self.symbols = clone_chars(symbols);
        proof {
            assert forall|i: int| #[trigger] self.cand_count(i) == g0.cand_count(i) by {
                assert(self.cand_slice(i) =~= g0.cand_slice(i));
            }
            lemma_total_same(*self, g0, self.cc());
            lemma_symmetric_same(*self, g0);
            assert(self.viable() == g0.viable()) by {
                if g0.viable() {
                    assert forall|i: int|
                        0 <= i < self.cc() && self.values[i] == NO_VALUE implies #[trigger] self.cand_count(
                        i,
                    ) >= 1 by {
                        assert(g0.cand_count(i) >= 1);
                    }
                }
                if self.viable() {
                    assert forall|i: int|
                        0 <= i < g0.cc() && g0.values[i] == NO_VALUE implies #[trigger] g0.cand_count(
                        i,
                    ) >= 1 by {
                        assert(self.cand_count(i) >= 1);
                    }
                }
            }
            assert(self.cands_sound() == g0.cands_sound()) by {
                if g0.cands_sound() {
                    assert forall|i: int, v: int|
                        0 <= i < self.cc() && 1 <= v <= self.mv() implies #[trigger] self.cand_ok(
                        i,
                        v,
                    ) by {
                        assert(g0.cand_ok(i, v));
                        lemma_value_allowed_same(g0, *self, i, v);
                    }
                }
                if self.cands_sound() {
                    assert forall|i: int, v: int|
                        0 <= i < g0.cc() && 1 <= v <= g0.mv() implies #[trigger] g0.cand_ok(
                        i,
                        v,
                    ) by {
                        assert(self.cand_ok(i, v));
                        lemma_value_allowed_same(g0, *self, i, v);
                    }
                }
            }
            assert(self.no_conflicts() == g0.no_conflicts()) by {
                if g0.no_conflicts() {
                    assert forall|i: int, j: int|
                        0 <= i < self.cc() && 0 <= j < self.cc() && #[trigger] self.is_related(
                            i,
                            j,
                        ) && self.values[i] != NO_VALUE implies self.values[i] != self.values[j] by {
                        assert(g0.is_related(i, j));
                    }
                }
                if self.no_conflicts() {
                    assert forall|i: int, j: int|
                        0 <= i < g0.cc() && 0 <= j < g0.cc() && #[trigger] g0.is_related(i, j)
                            && g0.values[i] != NO_VALUE implies g0.values[i] != g0.values[j] by {
                        assert(self.is_related(i, j));
                    }
                }
            }
        }
    }
}

/// A grid whose candidate bitset is exact, whose assigned values are
/// conflict-free, and whose symbols fit, passes every check that
/// `check_invariant` makes. Together with the `set_value` contract this says
/// that any legal sequence of assignments leaves a grid on which
/// `check_invariant` returns true.
pub proof fn lemma_invariant_from_sound(g: Grid)
    requires
        g.wf(),
        g.table_symmetric(),
        g.cands_sound(),
        g.no_conflicts(),
        g.symbols_ok(),
    ensures
        g.invariant_holds(),
{
    assert forall|i: int, j: int|
        0 <= i < g.cc() && 0 <= j < g.cc() && #[trigger] g.is_related(i, j) && g.values[i]
            != NO_VALUE implies !g.has_cand(j, g.values[i] as int) by {
        let v = g.values[i] as int;
        assert(g.cand_ok(j, v));
        if g.has_cand(j, v) {
            assert(g.value_allowed(j, v));
            assert(g.is_related(j, i));
            assert(g.values[i] != v);
            assert(false);
        }
    }
}

/// The candidate state is a function of the assigned values: two exact grids
/// over the same values, shape and relation table hold the same candidate
/// bitset, bit for bit. Incrementally maintained candidates therefore always
/// equal a from-scratch recalculation.
pub proof fn lemma_candidate_state_determined(g1: Grid, g2: Grid)
    requires
        g1.wf(),
        g2.wf(),
        g1.cands_sound(),
        g2.cands_sound(),
        g1.values@ == g2.values@,
        g1.related_cell_indexes@ == g2.related_cell_indexes@,
        g1.max_related_cell_count == g2.max_related_cell_count,
        g1.cell_count == g2.cell_count,
        g1.max_value == g2.max_value,
    ensures
        g1.bits() == g2.bits(),
{
    let cc = g1.cc();
    let mv = g1.mv();
    assert forall|x: int| 0 <= x < g1.bits().len() implies g1.bits()[x] == g2.bits()[x] by {
        vstd::arithmetic::div_mod::lemma_fundamental_div_mod(x, mv);
        let i = x / mv;
        let v = x % mv + 1;
        assert(0 <= x % mv < mv) by {
            vstd::arithmetic::div_mod::lemma_mod_bound(x, mv);
        }
        assert(0 <= i < cc) by {
            assert(i * mv <= x) by (nonlinear_arith)
                requires
                    x == i * mv + (x % mv),
                    0 <= x % mv,
            ;
            if i >= cc {
                assert(cc * mv <= i * mv) by (nonlinear_arith)
                    requires
                        cc <= i,
                        0 <= mv,
                ;
            }
            if i < 0 {
                assert(i * mv + (x % mv) < 0) by (nonlinear_arith)
                    requires
                        i < 0,
                        0 <= x % mv < mv,
                ;
            }
        }
        assert(x == i * mv + v - 1);
        assert(g1.cand_ok(i, v) && g2.cand_ok(i, v));
        lemma_value_allowed_same(g1, g2, i, v);
        assert(g1.has_cand(i, v) == g2.has_cand(i, v));
    }
    assert(g1.bits() =~= g2.bits());
}

/// Two grids in the same observable state satisfy the same grid predicates.
pub proof fn lemma_same_state(g1: Grid, g2: Grid)
    requires
        g1.same_state(g2),
    ensures
        g1.wf() == g2.wf(),
        g1.cands_sound() == g2.cands_sound(),
        g1.no_conflicts() == g2.no_conflicts(),
        g1.viable() == g2.viable(),
        g1.table_symmetric() == g2.table_symmetric(),
        forall|i: int, j: int| #[trigger] g1.is_related(i, j) == g2.is_related(i, j),
        forall|i: int| #[trigger] g1.cand_count(i) == g2.cand_count(i),
{
    assert forall|i: int| #[trigger] g1.cand_count(i) == g2.cand_count(i) by {
        assert(g1.cand_slice(i) =~= g2.cand_slice(i));
    }
    assert(forall|i: int, j: int| #[trigger] g1.is_related(i, j) == g2.is_related(i, j));
    lemma_total_same(g1, g2, g1.cc());
    assert(g1.cands_sound() == g2.cands_sound()) by {
        if g1.cands_sound() {
            assert forall|i: int, v: int|
                0 <= i < g2.cc() && 1 <= v <= g2.mv() implies #[trigger] g2.cand_ok(i, v) by {
                assert(g1.cand_ok(i, v));
                lemma_cand_ok_same(g1, g2, i, v);
            }
        }
        if g2.cands_sound() {
            assert forall|i: int, v: int|
                0 <= i < g1.cc() && 1 <= v <= g1.mv() implies #[trigger] g1.cand_ok(i, v) by {
                assert(g2.cand_ok(i, v));
                lemma_cand_ok_same(g1, g2, i, v);
            }
        }
    }
    assert(g1.table_symmetric() == g2.table_symmetric()) by {
        if g1.table_symmetric() {
            assert forall|i: int, j: int|
                0 <= i < g2.cc() && 0 <= j < g2.cc() && #[trigger] g2.is_related(i, j) implies g2.is_related(
                j,
                i,
            ) by {
                assert(g1.is_related(i, j));
                assert(g1.is_related(j, i));
            }
        }
        if g2.table_symmetric() {
            assert forall|i: int, j: int|
                0 <= i < g1.cc() && 0 <= j < g1.cc() && #[trigger] g1.is_related(i, j) implies g1.is_related(
                j,
                i,
            ) by {
                assert(g2.is_related(i, j));
                assert(g2.is_related(j, i));
            }
        }
    }
    assert(g1.no_conflicts() == g2.no_conflicts()) by {
        if g1.no_conflicts() {
            assert forall|i: int, j: int|
                0 <= i < g2.cc() && 0 <= j < g2.cc() && #[trigger] g2.is_related(i, j)
                    && g2.values[i] != NO_VALUE implies g2.values[i] != g2.values[j] by {
                assert(g1.is_related(i, j));
            }
        }
        if g2.no_conflicts() {
            assert forall|i: int, j: int|
                0 <= i < g1.cc() && 0 <= j < g1.cc() && #[trigger] g1.is_related(i, j)
                    && g1.values[i] != NO_VALUE implies g1.values[i] != g1.values[j] by {
                assert(g2.is_related(i, j));
            }
        }
    }
    assert(g1.viable() == g2.viable()) by {
        if g1.viable() {
            assert forall|i: int|
                0 <= i < g2.cc() && g2.values[i] == NO_VALUE implies #[trigger] g2.cand_count(i)
                >= 1 by {
                assert(g1.cand_count(i) == g2.cand_count(i));
                assert(g1.cand_count(i) >= 1);
            }
        }
        if g2.viable() {
            assert forall|i: int|
                0 <= i < g1.cc() && g1.values[i] == NO_VALUE implies #[trigger] g1.cand_count(i)
                >= 1 by {
                assert(g1.cand_count(i) == g2.cand_count(i));
                assert(g2.cand_count(i) >= 1);
            }
        }
    }
}

/// Two grids in the same observable state agree on each bit's exactness.
proof fn lemma_cand_ok_same(g1: Grid, g2: Grid, i: int, v: int)
    requires
        g1.same_state(g2),
    ensures
        g1.cand_ok(i, v) == g2.cand_ok(i, v),
{
    assert(forall|j: int| #[trigger] g1.is_related(i, j) == g2.is_related(i, j));
    if forall|j: int| 0 <= j < g1.cc() && #[trigger] g1.is_related(i, j) ==> g1.values[j] != v {
        assert forall|j: int|
            0 <= j < g2.cc() && #[trigger] g2.is_related(i, j) implies g2.values[j] != v by {
            assert(g1.is_related(i, j));
        }
    }
    if forall|j: int| 0 <= j < g2.cc() && #[trigger] g2.is_related(i, j) ==> g2.values[j] != v {
        assert forall|j: int|
            0 <= j < g1.cc() && #[trigger] g1.is_related(i, j) implies g1.values[j] != v by {
            assert(g2.is_related(i, j));
        }
    }
}

pub proof fn lemma_total_same(g1: Grid, g2: Grid, n: int)
    requires
        forall|i: int| #[trigger] g1.cand_count(i) == g2.cand_count(i),
    ensures
        g1.total_cands(n) == g2.total_cands(n),
    decreases n,
{
    if n > 0 {
        lemma_total_same(g1, g2, n - 1);
    }
}

/// A verified element-for-element copy of a byte vector.
pub fn clone_u8s(v: &Vec<u8>) -> (r: Vec<u8>)
    ensures
        r@ == v@,
{
    let mut r: Vec<u8> = Vec::new();
    for i in 0..v.len()
        invariant
            r@ == v@.take(i as int),
    {
        r.push(v[i]);
        proof {
            assert(r@ =~= v@.take(i + 1));
        }
    }
    proof {
        assert(v@.take(v@.len() as int) =~= v@);
    }
    r
}

/// A verified element-for-element copy of an index vector.
pub fn clone_u16s(v: &Vec<u16>) -> (r: Vec<u16>)
    ensures
        r@ == v@,
{
    let mut r: Vec<u16> = Vec::new();
    for i in 0..v.len()
        invariant
            r@ == v@.take(i as int),
    {
        r.push(v[i]);
        proof {
            assert(r@ =~= v@.take(i + 1));
        }
    }
    proof {
        assert(v@.take(v@.len() as int) =~= v@);
    }
    r
}

/// A verified element-for-element copy of a character vector.
pub fn clone_chars(v: &Vec<char>) -> (r: Vec<char>)
    ensures
        r@ == v@,
{
    let mut r: Vec<char> = Vec::new();
    for i in 0..v.len()
        invariant
            r@ == v@.take(i as int),
    {
        r.push(v[i]);
        proof {
            assert(r@ =~= v@.take(i + 1));
        }
    }
    proof {
        assert(v@.take(v@.len() as int) =~= v@);
    }
    r
}

} // verus!

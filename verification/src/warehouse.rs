//! The warehouse inventory model.
//!
//! A warehouse holds the canonical address list, a list of cells keyed by
//! address string (any string may become a cell; keys stay unique and keep
//! insertion order), a fixed total capacity of `12160` units, and a cached
//! total of the units in stock. Each cell holds at most `10` units of one
//! named product; an empty cell has an empty name.

use crate::address::{addr_at, generate_addresses, lemma_addr_at_injective, lemma_addr_at_zone};
use crate::parse::{parse_usize, parsed_dec};
use vstd::arithmetic::div_mod::{lemma_div_is_ordered, lemma_fundamental_div_mod_converse};
use vstd::prelude::*;

verus! {

/// Per-cell capacity in units.
pub const CELL_CAPACITY: usize = 10;

/// Total warehouse capacity in units: 1216 cells of 10.
pub const TOTAL_CAPACITY: usize = 12160;

/// One storage cell: a product name and a unit count.
pub struct Cell {
    pub name: String,
    pub count: usize,
}

impl Cell {
    /// A fresh cell: no product, no units.
    pub fn new() -> (r: Self)
        ensures
            r.count == 0,
            r.name@ == Seq::<char>::empty(),
    {
        Cell { name: String::new(), count: 0 }
    }
}

/// The sum of the unit counts over a cell list.
pub open spec fn sum_counts(cells: Seq<(String, Cell)>) -> int
    decreases cells.len(),
{
    if cells.len() == 0 {
        0
    } else {
        sum_counts(cells.drop_last()) + cells.last().1.count
    }
}

/// No two entries share an address.
pub open spec fn keys_unique(cells: Seq<(String, Cell)>) -> bool {
    forall|i: int, j: int| 0 <= i < j < cells.len() ==> cells[i].0@ != cells[j].0@
}

/// Every cell respects its capacity, and an empty cell has an empty name.
pub open spec fn cells_ok(cells: Seq<(String, Cell)>) -> bool {
    forall|i: int|
        0 <= i < cells.len() ==> (#[trigger] cells[i].1.count <= 10 && (cells[i].1.count == 0
            ==> cells[i].1.name@ == Seq::<char>::empty()))
}

/// Some entry is keyed by `addr`.
pub open spec fn has_addr(cells: Seq<(String, Cell)>, addr: Seq<char>) -> bool {
    exists|i: int| 0 <= i < cells.len() && cells[i].0@ == addr
}

/// The position of the entry keyed by `addr` (meaningful when `has_addr` holds
/// and keys are unique).
pub open spec fn addr_index(cells: Seq<(String, Cell)>, addr: Seq<char>) -> int {
    choose|i: int| 0 <= i < cells.len() && cells[i].0@ == addr
}

/// The unit count stored at `addr`; an absent cell counts as zero.
pub open spec fn count_at(cells: Seq<(String, Cell)>, addr: Seq<char>) -> int {
    if has_addr(cells, addr) {
        cells[addr_index(cells, addr)].1.count as int
    } else {
        0
    }
}

/// The product name stored at `addr`; an absent cell has an empty name.
pub open spec fn name_at(cells: Seq<(String, Cell)>, addr: Seq<char>) -> Seq<char> {
    if has_addr(cells, addr) {
        cells[addr_index(cells, addr)].1.name@
    } else {
        Seq::<char>::empty()
    }
}

/// With unique keys, an entry whose key is `addr` is the entry `addr_index`
/// points at.
pub proof fn lemma_found_at(cells: Seq<(String, Cell)>, addr: Seq<char>, i: int)
    requires
        keys_unique(cells),
        0 <= i < cells.len(),
        cells[i].0@ == addr,
    ensures
        has_addr(cells, addr),
        addr_index(cells, addr) == i,
        count_at(cells, addr) == cells[i].1.count,
        name_at(cells, addr) == cells[i].1.name@,
{
    assert(has_addr(cells, addr));
    let j = addr_index(cells, addr);
    if j < i {
        assert(cells[j].0@ != cells[i].0@);
    } else if i < j {
        assert(cells[i].0@ != cells[j].0@);
    }
}

/// The sum of the counts is never negative.
pub proof fn lemma_sum_counts_nonneg(cells: Seq<(String, Cell)>)
    ensures
        sum_counts(cells) >= 0,
    decreases cells.len(),
{
    if cells.len() > 0 {
        lemma_sum_counts_nonneg(cells.drop_last());
    }
}

/// Each entry's count is at most the sum of all counts.
pub proof fn lemma_sum_counts_ge_elem(cells: Seq<(String, Cell)>, i: int)
    requires
        0 <= i < cells.len(),
    ensures
        sum_counts(cells) >= cells[i].1.count,
    decreases cells.len(),
{
    if i == cells.len() - 1 {
        lemma_sum_counts_nonneg(cells.drop_last());
    } else {
        lemma_sum_counts_ge_elem(cells.drop_last(), i);
    }
}

/// Replacing one entry shifts the sum by the difference of the counts.
pub proof fn lemma_sum_counts_update(cells: Seq<(String, Cell)>, i: int, e: (String, Cell))
    requires
        0 <= i < cells.len(),
    ensures
        sum_counts(cells.update(i, e)) == sum_counts(cells) - cells[i].1.count + e.1.count,
    decreases cells.len(),
{
    let upd = cells.update(i, e);
    if i == cells.len() - 1 {
        assert(upd.drop_last() =~= cells.drop_last());
    } else {
        assert(upd.drop_last() =~= cells.drop_last().update(i, e));
        lemma_sum_counts_update(cells.drop_last(), i, e);
        assert(upd.last() == cells.last());
    }
}

/// Appending an entry adds its count to the sum.
pub proof fn lemma_sum_counts_push(cells: Seq<(String, Cell)>, e: (String, Cell))
    ensures
        sum_counts(cells.push(e)) == sum_counts(cells) + e.1.count,
{
    assert(cells.push(e).drop_last() =~= cells);
}

/// A prefix sums to no more than the whole list.
pub proof fn lemma_sum_counts_take_le(cells: Seq<(String, Cell)>, n: int)
    requires
        0 <= n <= cells.len(),
    ensures
        sum_counts(cells.take(n)) <= sum_counts(cells),
    decreases cells.len() - n,
{
    if n == cells.len() {
        assert(cells.take(n) =~= cells);
    } else {
        lemma_sum_counts_take_le(cells, n + 1);
        assert(cells.take(n + 1).drop_last() =~= cells.take(n));
    }
}

/// After replacing the entry at `i` (its key kept), lookups at the entry's
/// address see the new entry, and lookups anywhere else are unchanged.
pub proof fn lemma_lookup_after_update(
    old_cells: Seq<(String, Cell)>,
    new_cells: Seq<(String, Cell)>,
    i: int,
    addr: Seq<char>,
)
    requires
        keys_unique(old_cells),
        0 <= i < old_cells.len(),
        old_cells[i].0@ == addr,
        new_cells.len() == old_cells.len(),
        new_cells[i].0@ == addr,
        forall|j: int| 0 <= j < old_cells.len() && j != i ==> new_cells[j] == old_cells[j],
    ensures
        keys_unique(new_cells),
        has_addr(new_cells, addr),
        addr_index(new_cells, addr) == i,
        count_at(new_cells, addr) == new_cells[i].1.count,
        name_at(new_cells, addr) == new_cells[i].1.name@,
        forall|a: Seq<char>|
            a != addr ==> (#[trigger] has_addr(new_cells, a) <==> has_addr(old_cells, a)),
        forall|a: Seq<char>| a != addr ==> #[trigger] count_at(new_cells, a) == count_at(old_cells, a),
        forall|a: Seq<char>| a != addr ==> #[trigger] name_at(new_cells, a) == name_at(old_cells, a),
{
    assert(forall|j: int|
        0 <= j < new_cells.len() ==> #[trigger] new_cells[j].0@ == old_cells[j].0@);
    lemma_found_at(new_cells, addr, i);
    assert forall|a: Seq<char>| a != addr implies (#[trigger] has_addr(new_cells, a) <==> has_addr(
        old_cells,
        a,
    )) && count_at(new_cells, a) == count_at(old_cells, a) && name_at(new_cells, a) == name_at(
        old_cells,
        a,
    ) by {
        if has_addr(old_cells, a) {
            let k = addr_index(old_cells, a);
            assert(0 <= k < old_cells.len() && old_cells[k].0@ == a);
            assert(k != i);
            lemma_found_at(old_cells, a, k);
            lemma_found_at(new_cells, a, k);
        } else if has_addr(new_cells, a) {
            let k = addr_index(new_cells, a);
            assert(0 <= k < new_cells.len() && new_cells[k].0@ == a);
            assert(k != i);
            assert(old_cells[k].0@ == a);
        }
    }
}

/// After appending an entry with a fresh key, lookups at the new key see it,
/// and lookups anywhere else are unchanged.
pub proof fn lemma_lookup_after_push(old_cells: Seq<(String, Cell)>, e: (String, Cell))
    requires
        keys_unique(old_cells),
        !has_addr(old_cells, e.0@),
    ensures
        keys_unique(old_cells.push(e)),
        has_addr(old_cells.push(e), e.0@),
        addr_index(old_cells.push(e), e.0@) == old_cells.len(),
        count_at(old_cells.push(e), e.0@) == e.1.count,
        name_at(old_cells.push(e), e.0@) == e.1.name@,
        forall|a: Seq<char>|
            a != e.0@ ==> (#[trigger] has_addr(old_cells.push(e), a) <==> has_addr(old_cells, a)),
        forall|a: Seq<char>|
            a != e.0@ ==> #[trigger] count_at(old_cells.push(e), a) == count_at(old_cells, a),
        forall|a: Seq<char>|
            a != e.0@ ==> #[trigger] name_at(old_cells.push(e), a) == name_at(old_cells, a),
{
    let nc = old_cells.push(e);
    let n = old_cells.len() as int;
    assert(nc[n] == e);
    assert forall|i: int, j: int| 0 <= i < j < nc.len() implies nc[i].0@ != nc[j].0@ by {
        if j == n {
            assert(nc[i] == old_cells[i]);
            if nc[i].0@ == e.0@ {
                assert(has_addr(old_cells, e.0@));
            }
        } else {
            assert(nc[i] == old_cells[i] && nc[j] == old_cells[j]);
        }
    }
    lemma_found_at(nc, e.0@, n);
    assert forall|a: Seq<char>| a != e.0@ implies (#[trigger] has_addr(nc, a) <==> has_addr(
        old_cells,
        a,
    )) && count_at(nc, a) == count_at(old_cells, a) && name_at(nc, a) == name_at(old_cells, a) by {
        if has_addr(old_cells, a) {
            let k = addr_index(old_cells, a);
            assert(0 <= k < old_cells.len() && old_cells[k].0@ == a);
            assert(nc[k] == old_cells[k]);
            lemma_found_at(old_cells, a, k);
            lemma_found_at(nc, a, k);
        } else if has_addr(nc, a) {
            let k = addr_index(nc, a);
            assert(0 <= k < nc.len() && nc[k].0@ == a);
            assert(k != n);
            assert(old_cells[k].0@ == a);
        }
    }
}

/// `used` units as hundredths of a percent of the total capacity,
/// rounded to the nearest hundredth (halves away from zero).
pub open spec fn percent_x100(used: int) -> int {
    (used * 10000 + 6080) / 12160
}

/// The units stored at the canonical addresses `lo .. lo + n`.
pub open spec fn used_in_range(cells: Seq<(String, Cell)>, lo: int, n: int) -> int
    decreases n,
{
    if n <= 0 {
        0
    } else {
        used_in_range(cells, lo, n - 1) + count_at(cells, addr_at(lo + n - 1))
    }
}

/// One line of the stock report: a cell's address, product and count.
pub struct StockEntry {
    pub addr: String,
    pub name: String,
    pub count: usize,
}

/// The mathematical content of a stock report line.
pub open spec fn stock_view(e: StockEntry) -> (Seq<char>, Seq<char>, int) {
    (e.addr@, e.name@, e.count as int)
}

/// The stock report: every cell with units in it, in cell-list order.
pub open spec fn stocked_of(cells: Seq<(String, Cell)>) -> Seq<(Seq<char>, Seq<char>, int)>
    decreases cells.len(),
{
    if cells.len() == 0 {
        Seq::empty()
    } else {
        stocked_of(cells.drop_last()) + (if cells.last().1.count > 0 {
            seq![(cells.last().0@, cells.last().1.name@, cells.last().1.count as int)]
        } else {
            Seq::empty()
        })
    }
}

/// The first `n` canonical addresses whose cell is absent or empty,
/// in canonical order.
pub open spec fn empty_addrs(cells: Seq<(String, Cell)>, n: int) -> Seq<Seq<char>>
    decreases n,
{
    if n <= 0 {
        Seq::empty()
    } else {
        empty_addrs(cells, n - 1) + (if count_at(cells, addr_at(n - 1)) == 0 {
            seq![addr_at(n - 1)]
        } else {
            Seq::empty()
        })
    }
}

/// Why a command was rejected.
#[derive(PartialEq, Eq, Structural, Clone, Copy, Debug)]
pub enum StoreError {
    /// `ADD`: the cell cannot take that many more units.
    NoSpace,
    /// `REMOVE`: no cell exists at that address.
    CellNotFound,
    /// `REMOVE`: the name does not match, or fewer units are stored.
    NotEnoughStock,
}

/// The warehouse: canonical address list, cells, fixed capacity, cached usage.
pub struct Warehouse {
    pub all_addresses: Vec<String>,
    pub cells: Vec<(String, Cell)>,
    pub total_capacity: usize,
    pub total_used: usize,
}

impl Warehouse {
    /// Well-formedness: the canonical address list, unique cell keys, per-cell
    /// bounds, and a usage cache equal to the sum of the counts.
    pub open spec fn wf(&self) -> bool {
        &&& self.all_addresses@.len() == 1216
        &&& forall|i: int| 0 <= i < 1216 ==> self.all_addresses@[i]@ == addr_at(i)
        &&& keys_unique(self.cells@)
        &&& cells_ok(self.cells@)
        &&& self.total_used == sum_counts(self.cells@)
        &&& self.total_capacity == 12160
    }

    /// A fresh warehouse: all addresses generated, no cells, nothing used.
    pub fn new() -> (r: Self)
        ensures
            r.wf(),
            r.cells@.len() == 0,
            r.total_used == 0,
            r.total_capacity == 12160,
    {
        Warehouse {
            all_addresses: generate_addresses(),
            cells: Vec::new(),
            total_capacity: TOTAL_CAPACITY,
            total_used: 0,
        }
    }

    /// The position of the cell keyed by `addr`, if one exists.
    fn find_cell(&self, addr: &str) -> (r: Option<usize>)
        ensures
            match r {
                Some(i) => i < self.cells@.len() && self.cells@[i as int].0@ == addr@,
                None => !has_addr(self.cells@, addr@),
            },
    {
        let key: String = addr.to_owned();
        let n = self.cells.len();
        let mut i: usize = 0;
        while i < n
            invariant
                n == self.cells@.len(),
                i <= n,
                key@ == addr@,
                forall|j: int| 0 <= j < i ==> self.cells@[j].0@ != addr@,
            decreases n - i,
        {
            if self.cells[i].0 == key {
                return Some(i);
            }
            i = i + 1;
        }
        None
    }

    /// The position of the cell at `addr`, creating a fresh cell there first
    /// if none exists. Never changes any stock.
    pub fn get_cell(&mut self, addr: &str) -> (i: usize)
        requires
            old(self).wf(),
        ensures
            final(self).wf(),
            final(self).all_addresses == old(self).all_addresses,
            final(self).total_capacity == old(self).total_capacity,
            final(self).total_used == old(self).total_used,
            i < final(self).cells@.len(),
            final(self).cells@[i as int].0@ == addr@,
            has_addr(old(self).cells@, addr@) ==> *final(self) == *old(self) && i as int
                == addr_index(old(self).cells@, addr@),
            !has_addr(old(self).cells@, addr@) ==> {
                &&& final(self).cells@.len() == old(self).cells@.len() + 1
                &&& i == old(self).cells@.len()
                &&& (forall|j: int|
                    0 <= j < old(self).cells@.len() ==> final(self).cells@[j] == old(
                        self,
                    ).cells@[j])
                &&& final(self).cells@[i as int].1.count == 0
                &&& final(self).cells@[i as int].1.name@ == Seq::<char>::empty()
            },
    {
        match self.find_cell(addr) {
            Some(i) => {
                proof {
                    lemma_found_at(self.cells@, addr@, i as int);
                }
                i
            },
            None => {
                let i = self.cells.len();
                let entry = (addr.to_owned(), Cell::new());
                proof {
                    lemma_lookup_after_push(self.cells@, entry);
                    lemma_sum_counts_push(self.cells@, entry);
                }
                self.cells.push(entry);
                i
            },
        }
    }

    /// `ADD`: store `count` more units of `name` at `addr`, overwriting the
    /// cell's product name. Succeeds exactly when the cell (an absent cell
    /// counts as empty) can take `count` more units; a failed command leaves
    /// the warehouse untouched.
    pub fn add_item(&mut self, name: &str, count: usize, addr: &str) -> (r: Result<
        (),
        StoreError,
    >)
        requires
            old(self).wf(),
            old(self).total_used + count <= usize::MAX,
        ensures
            final(self).wf(),
            final(self).all_addresses == old(self).all_addresses,
            final(self).total_capacity == old(self).total_capacity,
            r is Ok <==> count_at(old(self).cells@, addr@) + count <= 10,
            r is Err ==> *final(self) == *old(self) && r == Err::<(), StoreError>(
                StoreError::NoSpace,
            ),
            r is Ok ==> {
                &&& final(self).total_used == old(self).total_used + count
                &&& has_addr(final(self).cells@, addr@)
                &&& count_at(final(self).cells@, addr@) == count_at(old(self).cells@, addr@)
                    + count
                &&& name_at(final(self).cells@, addr@) == (if count_at(old(self).cells@, addr@)
                    + count == 0 {
                    Seq::<char>::empty()
                } else {
                    name@
                })
                &&& (forall|a: Seq<char>|
                    a != addr@ ==> #[trigger] count_at(final(self).cells@, a) == count_at(
                        old(self).cells@,
                        a,
                    ))
                &&& (forall|a: Seq<char>|
                    a != addr@ ==> #[trigger] name_at(final(self).cells@, a) == name_at(
                        old(self).cells@,
                        a,
                    ))
                &&& (forall|a: Seq<char>|
                    a != addr@ ==> (#[trigger] has_addr(final(self).cells@, a) <==> has_addr(
                        old(self).cells@,
                        a,
                    )))
                &&& (if has_addr(old(self).cells@, addr@) {
                    final(self).cells@.len() == old(self).cells@.len()
                } else {
                    final(self).cells@.len() == old(self).cells@.len() + 1
                })
                &&& (forall|j: int|
                    0 <= j < old(self).cells@.len() ==> #[trigger] final(self).cells@[j].0@ == old(
                        self,
                    ).cells@[j].0@)
            },
    {
        match self.find_cell(addr) {
            Some(i) => {
                proof {
                    lemma_found_at(self.cells@, addr@, i as int);
                    assert(self.cells@[i as int].1.count <= 10);
                }
                let existing = self.cells[i].1.count;
                if count > CELL_CAPACITY - existing {
                    return Err(StoreError::NoSpace);
                }
                let ghost old_cells = self.cells@;
                let mut entry = self.cells.remove(i);
                entry.1.name = if existing + count == 0 {
                    String::new()
                } else {
                    name.to_owned()
                };
                entry.1.count = existing + count;
                self.cells.insert(i, entry);
                proof {
                    assert(self.cells@ =~= old_cells.update(i as int, self.cells@[i as int]));
                    lemma_sum_counts_update(old_cells, i as int, self.cells@[i as int]);
                    lemma_lookup_after_update(old_cells, self.cells@, i as int, addr@);
                }
                self.total_used = self.total_used + count;
                Ok(())
            },
            None => {
                if count > CELL_CAPACITY {
                    return Err(StoreError::NoSpace);
                }
                let cell_name = if count == 0 {
                    String::new()
                } else {
                    name.to_owned()
                };
                let entry = (addr.to_owned(), Cell { name: cell_name, count });
                proof {
                    lemma_lookup_after_push(self.cells@, entry);
                    lemma_sum_counts_push(self.cells@, entry);
                }
                self.cells.push(entry);
                self.total_used = self.total_used + count;
                Ok(())
            },
        }
    }

    /// `REMOVE`: take `count` units of `name` out of the cell at `addr`;
    /// a cell emptied by this clears its product name. Succeeds exactly when
    /// the cell exists, holds that product, and holds at least `count` units;
    /// a failed command leaves the warehouse untouched.
    pub fn remove_item(&mut self, name: &str, count: usize, addr: &str) -> (r: Result<
        (),
        StoreError,
    >)
        requires
            old(self).wf(),
        ensures
            final(self).wf(),
            final(self).all_addresses == old(self).all_addresses,
            final(self).total_capacity == old(self).total_capacity,
            r is Ok <==> (has_addr(old(self).cells@, addr@) && name_at(old(self).cells@, addr@)
                == name@ && count <= count_at(old(self).cells@, addr@)),
            r == Err::<(), StoreError>(StoreError::CellNotFound) <==> !has_addr(
                old(self).cells@,
                addr@,
            ),
            r == Err::<(), StoreError>(StoreError::NotEnoughStock) <==> (has_addr(
                old(self).cells@,
                addr@,
            ) && (name_at(old(self).cells@, addr@) != name@ || count_at(old(self).cells@, addr@)
                < count)),
            r is Err ==> *final(self) == *old(self),
            r is Ok ==> {
                &&& final(self).total_used == old(self).total_used - count
                &&& has_addr(final(self).cells@, addr@)
                &&& count_at(final(self).cells@, addr@) == count_at(old(self).cells@, addr@)
                    - count
                &&& name_at(final(self).cells@, addr@) == (if count_at(old(self).cells@, addr@)
                    == count {
                    Seq::<char>::empty()
                } else {
                    name_at(old(self).cells@, addr@)
                })
                &&& (forall|a: Seq<char>|
                    a != addr@ ==> #[trigger] count_at(final(self).cells@, a) == count_at(
                        old(self).cells@,
                        a,
                    ))
                &&& (forall|a: Seq<char>|
                    a != addr@ ==> #[trigger] name_at(final(self).cells@, a) == name_at(
                        old(self).cells@,
                        a,
                    ))
                &&& (forall|a: Seq<char>|
                    a != addr@ ==> (#[trigger] has_addr(final(self).cells@, a) <==> has_addr(
                        old(self).cells@,
                        a,
                    )))
                &&& final(self).cells@.len() == old(self).cells@.len()
                &&& (forall|j: int|
                    0 <= j < old(self).cells@.len() ==> #[trigger] final(self).cells@[j].0@ == old(
                        self,
                    ).cells@[j].0@)
            },
    {
        match self.find_cell(addr) {
            None => Err(StoreError::CellNotFound),
            Some(i) => {
                proof {
                    lemma_found_at(self.cells@, addr@, i as int);
                    assert(self.cells@[i as int].1.count <= 10);
                }
                let key_name: String = name.to_owned();
                let name_matches = self.cells[i].1.name == key_name;
                let existing = self.cells[i].1.count;
                if !name_matches || existing < count {
                    return Err(StoreError::NotEnoughStock);
                }
                let ghost old_cells = self.cells@;
                proof {
                    lemma_sum_counts_ge_elem(old_cells, i as int);
                }
                let mut entry = self.cells.remove(i);
                entry.1.count = existing - count;
                if entry.1.count == 0 {
                    entry.1.name = String::new();
                }
                self.cells.insert(i, entry);
                proof {
                    assert(self.cells@ =~= old_cells.update(i as int, self.cells@[i as int]));
                    lemma_sum_counts_update(old_cells, i as int, self.cells@[i as int]);
                    lemma_lookup_after_update(old_cells, self.cells@, i as int, addr@);
                }
                self.total_used = self.total_used - count;
                Ok(())
            },
        }
    }

    /// Recompute the cached usage total from the cells. On a well-formed
    /// warehouse the cache is already the sum, so nothing changes.
    pub fn update_usage(&mut self)
        requires
            old(self).wf(),
        ensures
            final(self).wf(),
            *final(self) == *old(self),
            final(self).total_used == sum_counts(final(self).cells@),
    {
        let n = self.cells.len();
        let mut acc: usize = 0;
        let mut i: usize = 0;
        while i < n
            invariant
                *self == *old(self),
                old(self).wf(),
                n == self.cells@.len(),
                i <= n,
                acc == sum_counts(self.cells@.take(i as int)),
            decreases n - i,
        {
            proof {
                lemma_sum_counts_take_le(self.cells@, i + 1 as int);
                assert(self.cells@.take(i + 1 as int).drop_last() =~= self.cells@.take(i as int));
            }
            let c = self.cells[i].1.count;
            acc = acc + c;
            i = i + 1;
        }
        proof {
            assert(self.cells@.take(n as int) =~= self.cells@);
        }
        self.total_used = acc;
    }

    /// The unit count stored at `addr`, zero for an absent cell.
    fn count_in_cell(&self, addr: &str) -> (c: usize)
        requires
            self.wf(),
        ensures
            c == count_at(self.cells@, addr@),
            c <= 10,
    {
        match self.find_cell(addr) {
            Some(i) => {
                proof {
                    lemma_found_at(self.cells@, addr@, i as int);
                    assert(self.cells@[i as int].1.count <= 10);
                }
                self.cells[i].1.count
            },
            None => 0,
        }
    }

    /// The units stored at the canonical addresses `lo .. lo + n`.
    fn used_at_range(&self, lo: usize, n: usize) -> (r: usize)
        requires
            self.wf(),
            lo + n <= 1216,
        ensures
            r == used_in_range(self.cells@, lo as int, n as int),
            r <= 10 * n,
    {
        let mut acc: usize = 0;
        let mut k: usize = 0;
        while k < n
            invariant
                self.wf(),
                lo + n <= 1216,
                k <= n,
                acc == used_in_range(self.cells@, lo as int, k as int),
                acc <= 10 * k,
            decreases n - k,
        {
            let addr: &String = &self.all_addresses[lo + k];
            let c = self.count_in_cell(addr.as_str());
            acc = acc + c;
            k = k + 1;
        }
        acc
    }

    /// `INFO`: the fill percentages (overall and per zone, both over the
    /// total capacity), the cells with stock in cell-list order, and the
    /// canonical addresses whose cell is absent or empty, in canonical order.
    pub fn info(&self) -> (r: InfoReport)
        requires
            self.wf(),
        ensures
            r.percent_total_x100 == percent_x100(self.total_used as int),
            r.percent_zone_a_x100 == percent_x100(used_in_range(self.cells@, 0, 608)),
            r.percent_zone_b_x100 == percent_x100(used_in_range(self.cells@, 608, 608)),
            r.stocked@.map_values(|e: StockEntry| stock_view(e)) == stocked_of(self.cells@),
            r.empty@.map_values(|a: String| a@) == empty_addrs(self.cells@, 1216),
    {
        let percent_total_x100 = percent_of_capacity_x100(self.total_used);
        let used_a = self.used_at_range(0, 608);
        let used_b = self.used_at_range(608, 608);
        let percent_zone_a_x100 = percent_of_capacity_x100(used_a);
        let percent_zone_b_x100 = percent_of_capacity_x100(used_b);

        let mut stocked: Vec<StockEntry> = Vec::new();
        let n = self.cells.len();
        let mut i: usize = 0;
        while i < n
            invariant
                self.wf(),
                n == self.cells@.len(),
                i <= n,
                stocked@.map_values(|e: StockEntry| stock_view(e)) == stocked_of(
                    self.cells@.take(i as int),
                ),
            decreases n - i,
        {
            let ghost prefix = self.cells@.take(i as int);
            proof {
                assert(self.cells@.take(i + 1 as int).drop_last() =~= prefix);
                assert(self.cells@.take(i + 1 as int).last() == self.cells@[i as int]);
            }
            if self.cells[i].1.count > 0 {
                let e = StockEntry {
                    addr: self.cells[i].0.clone(),
                    name: self.cells[i].1.name.clone(),
                    count: self.cells[i].1.count,
                };
                stocked.push(e);
            }
            proof {
                assert(stocked@.map_values(|e: StockEntry| stock_view(e)) =~= stocked_of(
                    self.cells@.take(i + 1 as int),
                ));
            }
            i = i + 1;
        }
        proof {
            assert(self.cells@.take(n as int) =~= self.cells@);
        }

        let mut empty: Vec<String> = Vec::new();
        let mut k: usize = 0;
        while k < 1216
            invariant
                self.wf(),
                k <= 1216,
                empty@.map_values(|a: String| a@) == empty_addrs(self.cells@, k as int),
            decreases 1216 - k,
        {
            let addr: &String = &self.all_addresses[k];
            let c = self.count_in_cell(addr.as_str());
            if c == 0 {
                empty.push(addr.clone());
            }
            proof {
                assert(empty@.map_values(|a: String| a@) =~= empty_addrs(
                    self.cells@,
                    k + 1 as int,
                ));
            }
            k = k + 1;
        }

        InfoReport {
            percent_total_x100,
            percent_zone_a_x100,
            percent_zone_b_x100,
            stocked,
            empty,
        }
    }
}

/// The warehouse state report computed by `INFO`.
pub struct InfoReport {
    pub percent_total_x100: usize,
    pub percent_zone_a_x100: usize,
    pub percent_zone_b_x100: usize,
    pub stocked: Vec<StockEntry>,
    pub empty: Vec<String>,
}

/// `used` units as hundredths of a percent of the total capacity.
/// The result never exceeds `used`.
pub fn percent_of_capacity_x100(used: usize) -> (r: usize)
    ensures
        r == percent_x100(used as int),
        r <= used,
{
    let wide: u128 = (used as u128) * 10000 + 6080;
    let q: u128 = wide / 12160;
    proof {
        lemma_div_is_ordered(wide as int, 12160 * (used as int) + 12159, 12160);
        lemma_fundamental_div_mod_converse(12160 * (used as int) + 12159, 12160, used as int, 12159);
    }
    q as usize
}

/// One tokenized command line of the warehouse dialogue. `EXIT` and the
/// blank line are read off the raw line before tokenizing, so neither
/// appears here.
pub enum WarehouseCommand {
    Add { name: String, count: usize, addr: String },
    Remove { name: String, count: usize, addr: String },
    Info,
    Unknown,
    BadFormat,
    BadNumber,
}

/// Dispatch one tokenized command line: `upper0` is the first token
/// uppercased, `tokens` the whole line. `ADD` and `REMOVE` demand exactly
/// four tokens, then a numeric count, in that order of complaint.
pub fn dispatch(upper0: &str, tokens: &Vec<String>) -> (c: WarehouseCommand)
    requires
        tokens@.len() >= 1,
    ensures
        c is BadFormat <==> ((upper0@ == "ADD"@ || upper0@ == "REMOVE"@) && tokens@.len() != 4),
        c is BadNumber <==> ((upper0@ == "ADD"@ || upper0@ == "REMOVE"@) && tokens@.len() == 4
            && parsed_dec(tokens@[2]@, usize::MAX as int) is None),
        c is Add <==> (upper0@ == "ADD"@ && tokens@.len() == 4 && parsed_dec(
            tokens@[2]@,
            usize::MAX as int,
        ) is Some),
        c is Remove <==> (upper0@ == "REMOVE"@ && tokens@.len() == 4 && parsed_dec(
            tokens@[2]@,
            usize::MAX as int,
        ) is Some),
        c is Info <==> (upper0@ == "INFO"@ && upper0@ != "ADD"@ && upper0@ != "REMOVE"@),
        c is Unknown <==> (upper0@ != "ADD"@ && upper0@ != "REMOVE"@ && upper0@ != "INFO"@),
        c matches WarehouseCommand::Add { name, count, addr } ==> (name@ == tokens@[1]@ && Some(
            count as int,
        ) == parsed_dec(tokens@[2]@, usize::MAX as int) && addr@ == tokens@[3]@),
        c matches WarehouseCommand::Remove { name, count, addr } ==> (name@ == tokens@[1]@
            && Some(count as int) == parsed_dec(tokens@[2]@, usize::MAX as int) && addr@
            == tokens@[3]@),
{
    proof {
        reveal_strlit("ADD");
        reveal_strlit("REMOVE");
        reveal_strlit("INFO");
        assert("ADD"@.len() == 3);
        assert("REMOVE"@.len() == 6);
        assert("INFO"@.len() == 4);
        assert("ADD"@ != "REMOVE"@);
        assert("ADD"@ != "INFO"@);
        assert("REMOVE"@ != "INFO"@);
    }
    let u: String = upper0.to_owned();
    let is_add = u == "ADD".to_owned();
    let is_remove = u == "REMOVE".to_owned();
    if is_add || is_remove {
        if tokens.len() != 4 {
            return WarehouseCommand::BadFormat;
        }
        match parse_usize(tokens[2].as_str()) {
            None => WarehouseCommand::BadNumber,
            Some(n) => {
                if is_add {
                    WarehouseCommand::Add {
                        name: tokens[1].clone(),
                        count: n,
                        addr: tokens[3].clone(),
                    }
                } else {
                    WarehouseCommand::Remove {
                        name: tokens[1].clone(),
                        count: n,
                        addr: tokens[3].clone(),
                    }
                }
            },
        }
    } else if u == "INFO".to_owned() {
        WarehouseCommand::Info
    } else {
        WarehouseCommand::Unknown
    }
}

/// Law: conservation. In a well-formed warehouse — and every operation here
/// keeps the warehouse well-formed — the cached total equals the sum of the
/// cell counts, and every count lies between zero and the cell capacity.
pub proof fn lemma_conservation(w: &Warehouse)
    requires
        w.wf(),
    ensures
        w.total_used == sum_counts(w.cells@),
        forall|i: int| 0 <= i < w.cells@.len() ==> 0 <= #[trigger] w.cells@[i].1.count <= 10,
{
}

/// Law: a well-formed warehouse lists exactly 1216 distinct addresses;
/// the first 608 lie in zone A and the remaining 608 in zone B.
pub proof fn lemma_address_list(w: &Warehouse)
    requires
        w.wf(),
    ensures
        w.all_addresses@.len() == 1216,
        forall|i: int, j: int|
            0 <= i < j < 1216 ==> w.all_addresses@[i]@ != w.all_addresses@[j]@,
        forall|i: int| 0 <= i < 608 ==> #[trigger] w.all_addresses@[i]@[0] == 'A',
        forall|i: int| 608 <= i < 1216 ==> #[trigger] w.all_addresses@[i]@[0] == 'B',
{
    assert forall|i: int, j: int|
        0 <= i < j < 1216 implies w.all_addresses@[i]@ != w.all_addresses@[j]@ by {
        lemma_addr_at_injective(i, j);
    }
    assert forall|i: int| 0 <= i < 608 implies #[trigger] w.all_addresses@[i]@[0] == 'A' by {
        lemma_addr_at_zone(i);
    }
    assert forall|i: int| 608 <= i < 1216 implies #[trigger] w.all_addresses@[i]@[0] == 'B' by {
        lemma_addr_at_zone(i);
    }
}

} // verus!

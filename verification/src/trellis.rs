//! The bounded trellis: a table of path counts over stages and weight levels.
//!
//! The columns of the table are the weight levels, the cumulative weights that
//! some symbol sequence has, not all integers up to the threshold.  A trellis
//! made by [`Trellis::new`] has a column for every weight level up to its
//! threshold.  One made by [`Trellis::new_expandable`] knows every weight
//! level that its number of stages allows but starts without columns, and
//! [`Trellis::expand_with`] adds them one by one, lowest first.

use crate::bigint::{big_add, big_clone, big_eq, big_from, int_val, int_vals};
use crate::counting::{
    has_zero_weight, lemma_closed_holds_reachable, lemma_level_position, lemma_reachable_nonneg,
    lemma_reachable_step, lemma_reachable_zero, lists, lists_levels, precedes, reachable,
    strictly_increasing,
};
use crate::error::ShapingError;
use crate::sums::distinct_indices;
use rug::Integer;
use vstd::prelude::*;

verus! {

/// The largest number of stages of a trellis.  It keeps the length in bits of
/// every path count within a `u32`.
pub const MAX_STAGES: usize = 67_108_863;

/// The largest number of symbols of a weight list.  It keeps the amplitude of
/// every symbol within a `usize`.
pub const MAX_SYMBOLS: usize = usize::MAX / 2;

/// The largest weight of a list, 0 for an empty one.
pub open spec fn max_weight(w: Seq<usize>) -> int
    decreases w.len(),
{
    if w.len() == 0 {
        0
    } else if w.last() > max_weight(w.drop_last()) {
        w.last() as int
    } else {
        max_weight(w.drop_last())
    }
}

/// Symbol `i` stands in the list `l` of pairs of a symbol and a number.
pub open spec fn lists_symbol(l: Seq<(usize, usize)>, i: int) -> bool {
    exists|q: int| 0 <= q < l.len() && (#[trigger] l[q]).0 == i
}

/// `l` lists the symbols of `w`, each with its weight, in the order in which
/// the successors of a node are scanned.
pub open spec fn is_symbol_order(w: Seq<usize>, l: Seq<(usize, usize)>) -> bool {
    &&& l.len() == w.len()
    &&& forall|q: int| 0 <= q < l.len() ==> (#[trigger] l[q]).0 < w.len() && l[q].1 == w[l[q].0 as int]
    &&& forall|p: int, q: int| 0 <= p < q < l.len() ==> precedes(w, l[p].0 as int, l[q].0 as int)
    &&& forall|i: int| 0 <= i < w.len() ==> #[trigger] lists_symbol(l, i)
}

/// `l` is the list of successors of the weight level `wl` under the threshold
/// `t`: one pair of symbol and weight level reached for every symbol that
/// keeps within the threshold, lighter symbols first, and of equally heavy
/// ones the one with the smaller index first.
pub open spec fn is_successor_list(w: Seq<usize>, t: int, wl: int, l: Seq<(usize, usize)>) -> bool {
    &&& forall|q: int|
        0 <= q < l.len() ==> (#[trigger] l[q]).0 < w.len() && l[q].1 == wl + w[l[q].0 as int]
            && l[q].1 <= t
    &&& forall|p: int, q: int| 0 <= p < q < l.len() ==> precedes(w, l[p].0 as int, l[q].0 as int)
    &&& forall|i: int| 0 <= i < w.len() && wl + w[i] <= t ==> #[trigger] lists_symbol(l, i)
}

/// `l` is the list of predecessors of the weight level `wl` among the weight
/// levels `levels`: one pair of symbol and weight level left for every symbol
/// that leads to `wl` from a weight level of the list, heavier symbols first
/// (so lower weight levels first), and of equally heavy ones the one with the
/// larger index first.
pub open spec fn is_predecessor_list(
    w: Seq<usize>,
    levels: Seq<usize>,
    wl: int,
    l: Seq<(usize, usize)>,
) -> bool {
    &&& forall|q: int|
        0 <= q < l.len() ==> (#[trigger] l[q]).0 < w.len() && l[q].1 == wl - w[l[q].0 as int]
            && lists(levels, l[q].1 as int)
    &&& forall|p: int, q: int| 0 <= p < q < l.len() ==> precedes(w, l[q].0 as int, l[p].0 as int)
    &&& forall|i: int|
        0 <= i < w.len() && lists(levels, wl - w[i]) ==> #[trigger] lists_symbol(l, i)
}

/// What a trellis holds, as Verus sees it.
pub struct TrellisView {
    /// The largest cumulative weight that the table has a column for.
    pub threshold: usize,
    /// The number of stages; the table has one row more.
    pub n_max: usize,
    /// The weight of each symbol.
    pub weights: Seq<usize>,
    /// Every weight level that the trellis knows, in rising order.
    pub levels: Seq<usize>,
    /// How many of them, from the lowest on, have a column.
    pub num_levels: nat,
    /// The table: one row for each stage, one entry for each column.
    pub values: Seq<Seq<int>>,
}

impl TrellisView {
    /// `v` is a weight level that the trellis knows.
    pub open spec fn in_universe(self, v: int) -> bool {
        lists(self.levels, v)
    }

    /// `v` is a weight level with a column in the table.
    pub open spec fn has_level(self, v: int) -> bool {
        exists|c: int| 0 <= c < self.num_levels && c < self.levels.len() && self.levels[c] == v
    }

    /// The column of the weight level `v`.
    pub open spec fn level_index(self, v: int) -> int {
        choose|c: int| 0 <= c < self.levels.len() && self.levels[c] == v
    }

    /// The entry of the table at a stage and a weight level.
    pub open spec fn value(self, stage: int, v: int) -> int {
        self.values[stage][self.level_index(v)]
    }

    /// Every entry of the table is 0.
    pub open spec fn all_zero(self) -> bool {
        forall|s: int, c: int|
            0 <= s < self.values.len() && 0 <= c < self.values[s].len() ==> #[trigger] self.values[s][c]
                == 0
    }

    /// The table after the entry at `stage` and weight level `v` has been
    /// replaced by `x`.
    pub open spec fn with_value(self, stage: int, v: int, x: int) -> TrellisView {
        TrellisView {
            values: self.values.update(stage, self.values[stage].update(self.level_index(v), x)),
            ..self
        }
    }

    /// The shape that every trellis has.
    pub open spec fn valid(self) -> bool {
        &&& has_zero_weight(self.weights)
        &&& self.weights.len() <= MAX_SYMBOLS
        &&& self.n_max <= MAX_STAGES
        &&& self.threshold < usize::MAX
        &&& self.levels.len() >= 1
        &&& self.levels[0] == 0
        &&& self.levels.last() < usize::MAX
        &&& lists_levels(self.weights, self.levels.last() as int, self.levels)
        &&& self.num_levels <= self.levels.len()
        &&& self.num_levels == 0 ==> self.threshold == 0
        &&& self.num_levels > 0 ==> (forall|v: int|
            (0 <= v <= self.threshold && #[trigger] reachable(self.weights, v)) <==> self.has_level(v))
        &&& self.values.len() == self.n_max + 1
        &&& forall|s: int| 0 <= s < self.values.len() ==> (#[trigger] self.values[s]).len() == self.num_levels
    }
}

/// [Trellis] is a data structure to hold a bounded trellis
///
/// Trellis nodes hold a [rug::Integer] and are indexed by `stage` (0..=n_max)
/// and `weight_level` (one of the accepted weight levels).
///
/// The weight levels are returned by [Trellis::get_weight_levels()].
/// Node values can be read and set by using the [Trellis::get()] and [Trellis::set()]
/// methods.
#[derive(Debug)]
pub struct Trellis {
    threshold: usize,
    n_max: usize,
    weights: Vec<usize>,
    weight_levels: Vec<usize>,
    weight_level_lookup: Vec<Option<usize>>,
    sorted_weights: Vec<(usize, usize)>,
    data: Vec<Vec<Integer>>,
}

impl View for Trellis {
    type V = TrellisView;

    closed spec fn view(&self) -> TrellisView {
        TrellisView {
            threshold: self.threshold,
            n_max: self.n_max,
            weights: self.weights@,
            levels: self.weight_levels@,
            num_levels: if self.data@.len() > 0 {
                self.data@[0]@.len()
            } else {
                0
            },
            values: Seq::new(
                self.data@.len(),
                |s: int| Seq::new(self.data@[s]@.len(), |c: int| int_val(self.data@[s]@[c])),
            ),
        }
    }
}

/// `lookup` tells for every weight up to the largest weight level which
/// entry of `levels` it is, if any.
pub open spec fn is_lookup(levels: Seq<usize>, lookup: Seq<Option<usize>>) -> bool {
    &&& levels.len() >= 1
    &&& lookup.len() == levels.last() + 1
    &&& forall|v: int|
        0 <= v < lookup.len() ==> match #[trigger] lookup[v] {
            Some(c) => c < levels.len() && levels[c as int] == v,
            None => !lists(levels, v),
        }
}

proof fn lemma_insert_entries<A>(l: Seq<A>, pos: int, v: A)
    requires
        0 <= pos <= l.len(),
    ensures
        l.insert(pos, v).len() == l.len() + 1,
        forall|q: int| 0 <= q < pos ==> #[trigger] l.insert(pos, v)[q] == l[q],
        l.insert(pos, v)[pos] == v,
        forall|q: int| pos < q <= l.len() ==> #[trigger] l.insert(pos, v)[q] == l[q - 1],
{
}

impl Trellis {
    /// What holds of the private parts of every trellis: the lookup table
    /// and the sorted symbols agree with the weights and weight levels.
    pub closed spec fn repr_ok(&self) -> bool {
        &&& is_lookup(self.weight_levels@, self.weight_level_lookup@)
        &&& is_symbol_order(self.weights@, self.sorted_weights@)
        &&& self.data@.len() == self.n_max + 1
    }

    /// The trellis is well formed.
    pub open spec fn wf(&self) -> bool {
        &&& self.repr_ok()
        &&& self@.valid()
    }

    /// The symbols with their weights, lightest first, and of equally heavy
    /// ones the one with the smaller index first.
    fn sort_weights(weights: &[usize]) -> (sorted: Vec<(usize, usize)>)
        ensures
            is_symbol_order(weights@, sorted@),
    {
        let mut sorted: Vec<(usize, usize)> = Vec::new();
        let mut k: usize = 0;
        while k < weights.len()
            invariant
                k <= weights@.len(),
                sorted@.len() == k,
                forall|q: int|
                    0 <= q < sorted@.len() ==> (#[trigger] sorted@[q]).0 < k && sorted@[q].1
                        == weights@[sorted@[q].0 as int],
                forall|p: int, q: int|
                    0 <= p < q < sorted@.len() ==> precedes(
                        weights@,
                        sorted@[p].0 as int,
                        sorted@[q].0 as int,
                    ),
                forall|i: int| 0 <= i < k ==> #[trigger] lists_symbol(sorted@, i),
            decreases weights@.len() - k,
        {
            let weight: usize = weights[k];
            let mut pos: usize = 0;
            while pos < sorted.len() && sorted[pos].1 <= weight
                invariant
                    pos <= sorted@.len(),
                    sorted@.len() == k,
                    k < weights@.len(),
                    weight == weights@[k as int],
                    forall|q: int|
                        0 <= q < sorted@.len() ==> (#[trigger] sorted@[q]).0 < k && sorted@[q].1
                            == weights@[sorted@[q].0 as int],
                    forall|q: int| 0 <= q < pos ==> (#[trigger] sorted@[q]).1 <= weight,
                decreases sorted@.len() - pos,
            {
                pos += 1;
            }
            let ghost before = sorted@;
            sorted.insert(pos, (k, weight));
            proof {
                lemma_insert_entries(before, pos as int, (k, weight));
                assert forall|p: int, q: int| 0 <= p < q < sorted@.len() implies precedes(
                    weights@,
                    sorted@[p].0 as int,
                    sorted@[q].0 as int,
                ) by {
                    if q == pos {
                    } else if p == pos {
                        // What stands behind the new entry is heavier.
                        assert(sorted@[q] == before[q - 1]);
                        assert(before[pos as int].1 > weight);
                        if q - 1 > pos {
                            assert(precedes(
                                weights@,
                                before[pos as int].0 as int,
                                before[q - 1].0 as int,
                            ));
                        }
                    } else {
                        let pb = if p < pos { p } else { p - 1 };
                        let qb = if q < pos { q } else { q - 1 };
                        assert(sorted@[p] == before[pb]);
                        assert(sorted@[q] == before[qb]);
                    }
                }
                assert forall|i: int| 0 <= i < k + 1 implies #[trigger] lists_symbol(sorted@, i) by {
                    if i == k {
                        assert(sorted@[pos as int].0 == i);
                    } else {
                        assert(lists_symbol(before, i));
                        let qb = choose|q: int| 0 <= q < before.len() && (#[trigger] before[q]).0 == i;
                        let qn = if qb < pos { qb } else { qb + 1 };
                        assert(sorted@[qn] == before[qb]);
                    }
                }
                assert forall|q: int| 0 <= q < sorted@.len() implies (#[trigger] sorted@[q]).0 < k + 1
                    && sorted@[q].1 == weights@[sorted@[q].0 as int] by {
                    if q != pos {
                        let qb = if q < pos { q } else { q - 1 };
                        assert(sorted@[q] == before[qb]);
                    }
                }
            }
            k += 1;
        }
        sorted
    }

    /// The weight levels up to `threshold`: every weight that some symbol
    /// sequence has, in rising order.
    fn calc_weight_levels(threshold: usize, weights: &[usize]) -> (levels: Vec<usize>)
        ensures
            lists_levels(weights@, threshold as int, levels@),
            levels@.len() >= 1,
            levels@[0] == 0,
    {
        let mut levels: Vec<usize> = Vec::new();
        levels.push(0);
        let mut p: usize = 0;
        proof {
            lemma_reachable_zero(weights@);
        }
        while p < levels.len()
            invariant
                p <= levels@.len(),
                levels@.len() >= 1,
                levels@[0] == 0,
                strictly_increasing(levels@),
                forall|c: int|
                    0 <= c < levels@.len() ==> #[trigger] levels@[c] <= threshold && reachable(
                        weights@,
                        levels@[c] as int,
                    ),
                forall|q: int, j: int|
                    0 <= q < p && 0 <= j < weights@.len() && levels@[q] + weights@[j] <= threshold
                        ==> lists(levels@, #[trigger] (levels@[q] + weights@[j])),
            decreases
                    (if p < levels@.len() {
                        threshold - levels@[p as int] + 1
                    } else {
                        0
                    }),
        {
            let wl: usize = levels[p];
            let mut j: usize = 0;
            while j < weights.len()
                invariant
                    j <= weights@.len(),
                    p < levels@.len(),
                    levels@[p as int] == wl,
                    levels@.len() >= 1,
                    levels@[0] == 0,
                    strictly_increasing(levels@),
                    forall|c: int|
                        0 <= c < levels@.len() ==> #[trigger] levels@[c] <= threshold && reachable(
                            weights@,
                            levels@[c] as int,
                        ),
                    forall|q: int, j: int|
                        0 <= q < p && 0 <= j < weights@.len() && levels@[q] + weights@[j]
                            <= threshold ==> lists(levels@, #[trigger] (levels@[q] + weights@[j])),
                    forall|i: int|
                        0 <= i < j && wl + weights@[i] <= threshold ==> lists(
                            levels@,
                            #[trigger] (wl + weights@[i]),
                        ),
                decreases weights@.len() - j,
            {
                let weight: usize = weights[j];
                if weight <= threshold - wl {
                    let new_wl: usize = wl + weight;
                    let mut pos: usize = p;
                    while pos < levels.len() && levels[pos] < new_wl
                        invariant
                            p <= pos <= levels@.len(),
                            strictly_increasing(levels@),
                            levels@[p as int] == wl,
                            wl <= new_wl,
                            forall|q: int| 0 <= q < pos ==> #[trigger] levels@[q] < new_wl,
                        decreases levels@.len() - pos,
                    {
                        pos += 1;
                    }
                    if pos == levels.len() || levels[pos] != new_wl {
                        let ghost before = levels@;
                        levels.insert(pos, new_wl);
                        proof {
                            lemma_insert_entries(before, pos as int, new_wl);
                            lemma_reachable_step(weights@, wl as int, j as int);
                            assert(pos > p);
                            assert forall|a: int, b: int| 0 <= a < b < levels@.len() implies levels@[a]
                                < levels@[b] by {
                                let ab = if a < pos { a } else { a - 1 };
                                let bb = if b < pos { b } else { b - 1 };
                                if a != pos && b != pos {
                                    assert(levels@[a] == before[ab] && levels@[b] == before[bb]);
                                } else if a == pos {
                                    assert(levels@[b] == before[bb]);
                                    lemma_level_position(before, pos as int, bb);
                                } else {
                                    assert(levels@[a] == before[ab]);
                                }
                            }
                            assert forall|v: int| lists(before, v) implies lists(levels@, v) by {
                                let c = choose|c: int| 0 <= c < before.len() && before[c] == v;
                                let cn = if c < pos { c } else { c + 1 };
                                assert(levels@[cn] == v);
                            }
                            assert forall|c: int| 0 <= c < levels@.len() implies #[trigger] levels@[c]
                                <= threshold && reachable(weights@, levels@[c] as int) by {
                                if c != pos {
                                    let cb = if c < pos { c } else { c - 1 };
                                    assert(levels@[c] == before[cb]);
                                }
                            }
                            assert forall|q: int, j: int|
                                0 <= q < p && 0 <= j < weights@.len() && levels@[q] + weights@[j]
                                    <= threshold implies lists(
                                levels@,
                                #[trigger] (levels@[q] + weights@[j]),
                            ) by {
                                assert(levels@[q] == before[q]);
                                assert(lists(before, before[q] + weights@[j]));
                            }
                            assert forall|i: int|
                                0 <= i < j && wl + weights@[i] <= threshold implies lists(
                                levels@,
                                #[trigger] (wl + weights@[i]),
                            ) by {
                                assert(lists(before, wl + weights@[i]));
                            }
                            assert(levels@[pos as int] == new_wl);
                        }
                    }
                    assert(lists(levels@, wl + weights@[j as int])) by {
                        assert(levels@[pos as int] == new_wl);
                    }
                }
                j += 1;
            }
            p += 1;
        }
        proof {
            lemma_closed_holds_reachable(weights@, threshold as int, levels@);
        }
        levels
    }

    /// The table that finds the column of a weight level.
    fn make_weight_level_lookup(weight_levels: &[usize]) -> (lookup: Vec<Option<usize>>)
        requires
            weight_levels@.len() >= 1,
            strictly_increasing(weight_levels@),
            weight_levels@.last() < usize::MAX,
        ensures
            is_lookup(weight_levels@, lookup@),
    {
        let max_wl: usize = weight_levels[weight_levels.len() - 1];
        let mut lookup: Vec<Option<usize>> = Vec::new();
        let mut v: usize = 0;
        while v <= max_wl
            invariant
                v <= max_wl + 1,
                max_wl < usize::MAX,
                lookup@.len() == v,
                forall|u: int| 0 <= u < v ==> #[trigger] lookup@[u] == None::<usize>,
            decreases max_wl + 1 - v,
        {
            lookup.push(None);
            v += 1;
        }
        let mut c: usize = 0;
        while c < weight_levels.len()
            invariant
                c <= weight_levels@.len(),
                strictly_increasing(weight_levels@),
                weight_levels@.len() >= 1,
                max_wl == weight_levels@.last(),
                lookup@.len() == max_wl + 1,
                forall|u: int|
                    0 <= u < lookup@.len() ==> match #[trigger] lookup@[u] {
                        Some(d) => d < c && weight_levels@[d as int] == u,
                        None => forall|d: int| 0 <= d < c ==> weight_levels@[d] != u,
                    },
            decreases weight_levels@.len() - c,
        {
            let wl: usize = weight_levels[c];
            proof {
                lemma_level_position(weight_levels@, c as int, weight_levels@.len() - 1);
            }
            let ghost before = lookup@;
            lookup[wl] = Some(c);
            proof {
                assert forall|u: int| 0 <= u < lookup@.len() implies match #[trigger] lookup@[u] {
                    Some(d) => d < c + 1 && weight_levels@[d as int] == u,
                    None => forall|d: int| 0 <= d < c + 1 ==> weight_levels@[d] != u,
                } by {
                    if u != wl {
                        assert(lookup@[u] == before[u]);
                    }
                }
            }
            c += 1;
        }
        lookup
    }

    /// Whether some weight of the list is 0.
    fn has_free_symbol(weights: &[usize]) -> (found: bool)
        ensures
            found == has_zero_weight(weights@),
    {
        let mut k: usize = 0;
        while k < weights.len()
            invariant
                k <= weights@.len(),
                forall|i: int| 0 <= i < k ==> weights@[i] != 0,
            decreases weights@.len() - k,
        {
            if weights[k] == 0 {
                return true;
            }
            k += 1;
        }
        false
    }

    /// The largest weight of the list.
    fn largest_weight(weights: &[usize]) -> (largest: usize)
        ensures
            largest == max_weight(weights@),
    {
        let mut largest: usize = 0;
        let mut k: usize = 0;
        while k < weights.len()
            invariant
                k <= weights@.len(),
                largest == max_weight(weights@.take(k as int)),
            decreases weights@.len() - k,
        {
            proof {
                assert(weights@.take(k + 1).drop_last() =~= weights@.take(k as int));
            }
            if weights[k] > largest {
                largest = weights[k];
            }
            k += 1;
        }
        proof {
            assert(weights@.take(k as int) =~= weights@);
        }
        largest
    }

    fn copy_of(list: &[usize]) -> (copy: Vec<usize>)
        ensures
            copy@ == list@,
    {
        let mut copy: Vec<usize> = Vec::new();
        let mut k: usize = 0;
        while k < list.len()
            invariant
                k <= list@.len(),
                copy@ == list@.take(k as int),
            decreases list@.len() - k,
        {
            copy.push(list[k]);
            proof {
                assert(list@.take(k + 1) =~= list@.take(k as int).push(list@[k as int]));
            }
            k += 1;
        }
        proof {
            assert(list@.take(k as int) =~= list@);
        }
        copy
    }

    /// A table of `rows` rows with `columns` zeros each.
    fn zero_table(rows: usize, columns: usize) -> (data: Vec<Vec<Integer>>)
        ensures
            data@.len() == rows,
            forall|s: int| 0 <= s < rows ==> (#[trigger] data@[s])@.len() == columns,
            forall|s: int, c: int|
                0 <= s < rows && 0 <= c < columns ==> int_val(#[trigger] data@[s]@[c]) == 0,
    {
        let mut data: Vec<Vec<Integer>> = Vec::new();
        let mut s: usize = 0;
        while s < rows
            invariant
                s <= rows,
                data@.len() == s,
                forall|r: int| 0 <= r < s ==> (#[trigger] data@[r])@.len() == columns,
                forall|r: int, c: int|
                    0 <= r < s && 0 <= c < columns ==> int_val(#[trigger] data@[r]@[c]) == 0,
            decreases rows - s,
        {
            let mut row: Vec<Integer> = Vec::new();
            let mut c: usize = 0;
            while c < columns
                invariant
                    c <= columns,
                    row@.len() == c,
                    forall|d: int| 0 <= d < c ==> int_val(#[trigger] row@[d]) == 0,
                decreases columns - c,
            {
                row.push(big_from(0));
                c += 1;
            }
            data.push(row);
            s += 1;
        }
        data
    }

    /// Create a new [Trellis] instance with a column for every weight level
    /// up to `threshold` and 0 in every entry.
    ///
    /// The smallest weight must be 0.
    pub fn new(threshold: usize, n_max: usize, weights: &[usize]) -> (r: Result<Trellis, ShapingError>)
        ensures
            r is Ok <==> valid_config(weights@, threshold, n_max),
            r matches Err(e) ==> e == ShapingError::InvalidConfiguration,
            r matches Ok(t) ==> t.wf() && t@.threshold == threshold && t@.n_max == n_max
                && t@.weights == weights@ && t@.num_levels == t@.levels.len() && t@.all_zero(),
    {
        if !Self::has_free_symbol(weights) || weights.len() > MAX_SYMBOLS || n_max > MAX_STAGES
            || threshold == usize::MAX {
            return Err(ShapingError::InvalidConfiguration);
        }
        let sorted_weights = Self::sort_weights(weights);
        let weight_levels = Self::calc_weight_levels(threshold, weights);
        proof {
            lemma_level_position(weight_levels@, 0, weight_levels@.len() - 1);
            assert forall|c: int| 0 <= c < weight_levels@.len() implies #[trigger] weight_levels@[c]
                <= weight_levels@.last() by {
                lemma_level_position(weight_levels@, c, weight_levels@.len() - 1);
            }
        }
        let weight_level_lookup = Self::make_weight_level_lookup(weight_levels.as_slice());
        let data = Self::zero_table(n_max + 1, weight_levels.len());
        let trellis = Trellis {
            threshold,
            n_max,
            weights: Self::copy_of(weights),
            weight_levels,
            weight_level_lookup,
            sorted_weights,
            data,
        };
        proof {
            let view = trellis@;
            assert(view.num_levels == view.levels.len());
            assert forall|v: int|
                (0 <= v <= view.threshold && #[trigger] reachable(view.weights, v)) <==> view.has_level(
                    v,
                ) by {
                if 0 <= v <= view.threshold && reachable(view.weights, v) {
                    assert(lists(view.levels, v));
                }
                if view.has_level(v) {
                    let c = choose|c: int|
                        0 <= c < view.num_levels && c < view.levels.len() && view.levels[c] == v;
                    assert(view.levels[c] <= threshold);
                }
            }
        }
        Ok(trellis)
    }

    /// A fresh trellis with the threshold, stages and weights of `trellis`.
    pub fn new_like(trellis: &Trellis) -> (t: Trellis)
        requires
            trellis.wf(),
        ensures
            t.wf(),
            t@.threshold == trellis@.threshold,
            t@.n_max == trellis@.n_max,
            t@.weights == trellis@.weights,
            t@.num_levels == t@.levels.len(),
            t@.all_zero(),
    {
        match Trellis::new(trellis.threshold, trellis.n_max, trellis.weights.as_slice()) {
            Ok(t) => t,
            Err(_) => vstd::pervasive::unreached(),
        }
    }

    /// Create a trellis that knows every weight level up to `n_max` times the
    /// largest weight but has no column yet.
    pub fn new_expandable(n_max: usize, weights: &[usize]) -> (r: Result<Trellis, ShapingError>)
        ensures
            r is Ok <==> valid_expandable_config(weights@, n_max),
            r matches Err(e) ==> e == ShapingError::InvalidConfiguration,
            r matches Ok(t) ==> t.wf() && t@.threshold == 0 && t@.n_max == n_max && t@.weights
                == weights@ && t@.num_levels == 0 && lists_levels(
                weights@,
                n_max * max_weight(weights@),
                t@.levels,
            ),
    {
        if !Self::has_free_symbol(weights) || weights.len() > MAX_SYMBOLS || n_max > MAX_STAGES {
            return Err(ShapingError::InvalidConfiguration);
        }
        let max_weight: usize = Self::largest_weight(weights);
        let max_threshold: usize = match n_max.checked_mul(max_weight) {
            Some(product) => product,
            None => {
                return Err(ShapingError::InvalidConfiguration);
            },
        };
        if max_threshold == usize::MAX {
            return Err(ShapingError::InvalidConfiguration);
        }
        let sorted_weights = Self::sort_weights(weights);
        let all_wls = Self::calc_weight_levels(max_threshold, weights);
        proof {
            assert forall|c: int| 0 <= c < all_wls@.len() implies #[trigger] all_wls@[c]
                <= all_wls@.last() by {
                lemma_level_position(all_wls@, c, all_wls@.len() - 1);
            }
        }
        let wl_lookup = Self::make_weight_level_lookup(all_wls.as_slice());
        let data = Self::zero_table(n_max + 1, 0);
        let threshold: usize = all_wls[0];
        let trellis = Trellis {
            threshold,
            n_max,
            weights: Self::copy_of(weights),
            weight_levels: all_wls,
            weight_level_lookup: wl_lookup,
            sorted_weights,
            data,
        };
        Ok(trellis)
    }

    /// The largest cumulative weight that the table has a column for.
    pub fn threshold(&self) -> (threshold: usize)
        ensures
            threshold == self@.threshold,
    {
        self.threshold
    }

    /// The number of stages.
    pub fn n_max(&self) -> (n_max: usize)
        ensures
            n_max == self@.n_max,
    {
        self.n_max
    }

    /// Whether `weight_level` is a weight level that the trellis knows.
    fn wl_valid(&self, weight_level: usize) -> (valid: bool)
        requires
            self.wf(),
        ensures
            valid == self@.in_universe(weight_level as int),
    {
        if weight_level >= self.weight_level_lookup.len() {
            proof {
                if self@.in_universe(weight_level as int) {
                    let c = choose|c: int| 0 <= c < self@.levels.len() && self@.levels[c] == weight_level;
                    lemma_level_position(self@.levels, c, self@.levels.len() - 1);
                }
            }
            return false;
        }
        self.weight_level_lookup[weight_level].is_some()
    }

    /// The column of a weight level that the trellis knows.
    fn column_of(&self, weight_level: usize) -> (column: usize)
        requires
            self.wf(),
            self@.in_universe(weight_level as int),
        ensures
            column == self@.level_index(weight_level as int),
            column < self@.levels.len(),
            self@.levels[column as int] == weight_level,
            self@.has_level(weight_level as int) ==> column < self@.num_levels,
    {
        proof {
            let c = choose|c: int| 0 <= c < self@.levels.len() && self@.levels[c] == weight_level;
            lemma_level_position(self@.levels, c, self@.levels.len() - 1);
            self@.lemma_level_index(weight_level as int);
        }
        match self.weight_level_lookup[weight_level] {
            Some(column) => {
                proof {
                    lemma_level_position(
                        self@.levels,
                        column as int,
                        self@.level_index(weight_level as int),
                    );
                }
                column
            },
            None => vstd::pervasive::unreached(),
        }
    }

    /// Each row of the table has one entry for each column.
    proof fn lemma_row(&self, stage: int)
        requires
            self.wf(),
            0 <= stage <= self@.n_max,
        ensures
            stage < self.data@.len(),
            self.data@[stage]@.len() == self@.num_levels,
            self@.values[stage].len() == self@.num_levels,
            forall|c: int|
                0 <= c < self@.num_levels ==> #[trigger] self@.values[stage][c] == int_val(
                    self.data@[stage]@[c],
                ),
    {
        assert(self@.values[stage].len() == self@.num_levels);
    }

    /// Get function for trellis values
    pub fn get(&self, stage: usize, weight_level: usize) -> (value: Integer)
        requires
            self.wf(),
            stage <= self@.n_max,
            self@.has_level(weight_level as int),
        ensures
            int_val(value) == self@.value(stage as int, weight_level as int),
    {
        let column = self.column_of(weight_level);
        proof {
            self.lemma_row(stage as int);
        }
        big_clone(&self.data[stage][column])
    }

    /// Get function for trellis values, returns 0 if `weight_level` has no
    /// column
    pub fn get_or_0(&self, stage: usize, weight_level: usize) -> (value: Integer)
        requires
            self.wf(),
            stage <= self@.n_max,
        ensures
            int_val(value) == if self@.has_level(weight_level as int) {
                self@.value(stage as int, weight_level as int)
            } else {
                0
            },
    {
        if !self.wl_valid(weight_level) {
            return big_from(0);
        }
        let column = self.column_of(weight_level);
        proof {
            self.lemma_row(stage as int);
        }
        if column < self.data[stage].len() {
            proof {
                assert(self@.levels[column as int] == weight_level);
            }
            big_clone(&self.data[stage][column])
        } else {
            proof {
                if self@.has_level(weight_level as int) {
                    let c = choose|c: int|
                        0 <= c < self@.num_levels && c < self@.levels.len() && self@.levels[c]
                            == weight_level;
                    lemma_level_position(self@.levels, c, column as int);
                }
            }
            big_from(0)
        }
    }

    /// The row of the table at `stage`.
    pub fn get_stage(&self, stage: usize) -> (row: Vec<Integer>)
        requires
            self.wf(),
            stage <= self@.n_max,
        ensures
            row@.len() == self@.num_levels,
            forall|c: int| 0 <= c < row@.len() ==> int_val(#[trigger] row@[c]) == self@.values[stage as int][c],
    {
        let mut row: Vec<Integer> = Vec::new();
        let mut c: usize = 0;
        proof {
            self.lemma_row(stage as int);
        }
        while c < self.data[stage].len()
            invariant
                self.wf(),
                stage <= self@.n_max,
                stage < self.data@.len(),
                self.data@[stage as int]@.len() == self@.num_levels,
                forall|d: int|
                    0 <= d < self@.num_levels ==> #[trigger] self@.values[stage as int][d] == int_val(
                        self.data@[stage as int]@[d],
                    ),
                c <= self.data@[stage as int]@.len(),
                row@.len() == c,
                forall|d: int|
                    0 <= d < c ==> int_val(#[trigger] row@[d]) == self@.values[stage as int][d],
            decreases self.data@[stage as int]@.len() - c,
        {
            row.push(big_clone(&self.data[stage][c]));
            c += 1;
        }
        row
    }

    /// Set function for trellis values
    pub fn set(&mut self, stage: usize, weight_level: usize, value: Integer)
        requires
            old(self).wf(),
            stage <= old(self)@.n_max,
            old(self)@.has_level(weight_level as int),
        ensures
            final(self).wf(),
            final(self)@ == old(self)@.with_value(stage as int, weight_level as int, int_val(value)),
    {
        let column = self.column_of(weight_level);
        let ghost x = int_val(value);
        proof {
            self.lemma_row(stage as int);
            self.lemma_row(0);
            assert forall|s: int| 0 <= s <= self@.n_max implies (#[trigger] self.data@[s])@.len()
                == self@.num_levels by {
                self.lemma_row(s);
            }
        }
        self.data[stage][column] = value;
        proof {
            let expected = old(self)@.with_value(stage as int, weight_level as int, x);
            assert(self@.values =~~= expected.values);
        }
    }

    /// Function to add a value to an existing trellis value
    pub fn add(&mut self, stage: usize, weight_level: usize, value: Integer)
        requires
            old(self).wf(),
            stage <= old(self)@.n_max,
            old(self)@.has_level(weight_level as int),
        ensures
            final(self).wf(),
            final(self)@ == old(self)@.with_value(
                stage as int,
                weight_level as int,
                old(self)@.value(stage as int, weight_level as int) + int_val(value),
            ),
    {
        let current = self.get(stage, weight_level);
        self.set(stage, weight_level, big_add(&current, &value));
    }

    /// Returns the weight for the given weight index
    pub fn get_weight(&self, weight_index: usize) -> (weight: usize)
        requires
            weight_index < self@.weights.len(),
        ensures
            weight == self@.weights[weight_index as int],
    {
        self.weights[weight_index]
    }

    /// Returns the weights of this trellis
    pub fn get_weights(&self) -> (weights: Vec<usize>)
        ensures
            weights@ == self@.weights,
    {
        Self::copy_of(self.weights.as_slice())
    }

    /// Returns the weight levels of this trellis
    pub fn get_weight_levels(&self) -> (levels: Vec<usize>)
        ensures
            levels@ == self@.levels,
    {
        Self::copy_of(self.weight_levels.as_slice())
    }

    /// Returns the number of weight levels used by the stored data
    pub fn get_num_weight_levels(&self) -> (columns: usize)
        requires
            self.wf(),
        ensures
            columns == self@.num_levels,
    {
        self.data[0].len()
    }

    /// Returns the index of the given weight level
    pub fn get_weight_level_index(&self, weight_level: usize) -> (column: usize)
        requires
            self.wf(),
            self@.in_universe(weight_level as int),
        ensures
            column == self@.level_index(weight_level as int),
            column < self@.levels.len(),
            self@.levels[column as int] == weight_level,
    {
        self.column_of(weight_level)
    }

    /// The numbers of rows and of columns of the table.
    pub fn get_storage_dimensions(&self) -> (dimensions: (usize, usize))
        requires
            self.wf(),
        ensures
            dimensions.0 == self@.n_max + 1,
            dimensions.1 == self@.num_levels,
    {
        (self.data.len(), self.get_num_weight_levels())
    }
}

impl TrellisView {
    /// The column of a weight level that the trellis knows is the one place
    /// at which the list of weight levels holds it.
    pub proof fn lemma_level_index(self, v: int)
        requires
            self.valid(),
            self.in_universe(v),
        ensures
            0 <= self.level_index(v) < self.levels.len(),
            self.levels[self.level_index(v)] == v,
            self.has_level(v) <==> self.level_index(v) < self.num_levels,
    {
        let i = self.level_index(v);
        if self.has_level(v) {
            let c = choose|c: int| 0 <= c < self.num_levels && c < self.levels.len() && self.levels[c] == v;
            lemma_level_position(self.levels, c, i);
        }
    }
}

/// The weights, threshold and number of stages that a trellis can be made
/// with.
pub open spec fn valid_config(w: Seq<usize>, threshold: usize, n_max: usize) -> bool {
    has_zero_weight(w) && w.len() <= MAX_SYMBOLS && n_max <= MAX_STAGES && threshold < usize::MAX
}

/// The weights and number of stages that an expandable trellis can be made
/// with.
pub open spec fn valid_expandable_config(w: Seq<usize>, n_max: usize) -> bool {
    has_zero_weight(w) && w.len() <= MAX_SYMBOLS && n_max <= MAX_STAGES && n_max * max_weight(w)
        < usize::MAX
}

impl TrellisView {
    /// The trellis after its next weight level has got its column, with the
    /// entries `column`, one for each stage.
    pub open spec fn expanded(self, column: Seq<int>) -> TrellisView {
        TrellisView {
            threshold: self.levels[self.num_levels as int],
            num_levels: self.num_levels + 1,
            values: Seq::new(self.values.len(), |s: int| self.values[s].push(column[s])),
            ..self
        }
    }

    /// Two trellises have the same weights and the same table.
    pub open spec fn same_table(self, other: TrellisView) -> bool {
        self.weights == other.weights && self.values == other.values
    }
}

impl Trellis {
    /// Increase the trellis size by one weight level moving in the provided trellis values
    ///
    /// Note: the values are removed from `new_values`
    pub fn expand_with(&mut self, new_values: &mut Vec<Integer>) -> (r: Result<(), ShapingError>)
        requires
            old(self).wf(),
            old(new_values)@.len() == old(self)@.n_max + 1,
        ensures
            final(self).wf(),
            r is Ok <==> old(self)@.num_levels < old(self)@.levels.len(),
            r matches Err(e) ==> e == ShapingError::TrellisFull && final(self)@ == old(self)@,
            r is Err ==> final(new_values)@ == old(new_values)@,
            r is Ok ==> final(self)@ == old(self)@.expanded(int_vals(old(new_values)@)),
            r is Ok ==> final(new_values)@.len() == 0,
    {
        let current_num_wls = self.get_num_weight_levels();
        if current_num_wls < self.weight_levels.len() {
            let mut stage: usize = self.data.len();
            proof {
                assert forall|s: int| 0 <= s <= self@.n_max implies (#[trigger] self.data@[s])@.len()
                    == self@.num_levels by {
                    self.lemma_row(s);
                }
                assert(new_values@.take(stage as int) =~= new_values@);
            }
            while stage > 0
                invariant
                    stage <= old(self).data@.len(),
                    self.data@.len() == old(self).data@.len(),
                    self.threshold == old(self).threshold,
                    self.n_max == old(self).n_max,
                    self.weights == old(self).weights,
                    self.weight_levels == old(self).weight_levels,
                    self.weight_level_lookup == old(self).weight_level_lookup,
                    self.sorted_weights == old(self).sorted_weights,
                    old(new_values)@.len() == old(self).data@.len(),
                    new_values@ == old(new_values)@.take(stage as int),
                    forall|s: int|
                        0 <= s < stage ==> #[trigger] self.data@[s] == old(self).data@[s],
                    forall|s: int|
                        stage <= s < self.data@.len() ==> (#[trigger] self.data@[s])@ == old(self).data@[s]@.push(
                            old(new_values)@[s],
                        ),
                decreases stage,
            {
                stage -= 1;
                let ghost before = self.data@;
                match new_values.pop() {
                    Some(value) => {
                        self.data[stage].push(value);
                    },
                    None => {
                        assert(false);
                    },
                }
                proof {
                    assert(new_values@ =~= old(new_values)@.take(stage as int));
                }
            }
            self.threshold = self.weight_levels[current_num_wls];
            proof {
                let before = old(self)@;
                let after = self@;
                let expected = before.expanded(int_vals(old(new_values)@));
                assert(after.values =~~= expected.values);
                assert(after == expected);
                lemma_level_position(before.levels, current_num_wls as int, before.levels.len() - 1);
                assert forall|v: int|
                    (0 <= v <= after.threshold && #[trigger] reachable(after.weights, v))
                        <==> after.has_level(v) by {
                    if 0 <= v <= after.threshold && reachable(after.weights, v) {
                        assert(lists(after.levels, v));
                        let c = choose|c: int| 0 <= c < after.levels.len() && after.levels[c] == v;
                        lemma_level_position(after.levels, c, current_num_wls as int);
                    }
                    if after.has_level(v) {
                        let c = choose|c: int|
                            0 <= c < after.num_levels && c < after.levels.len() && after.levels[c] == v;
                        lemma_level_position(after.levels, c, current_num_wls as int);
                        lemma_reachable_nonneg(after.weights, v);
                    }
                }
            }
            Ok(())
        } else {
            Err(ShapingError::TrellisFull)
        }
    }

    /// Returns a [Vec] of (weight_index, weight_level) for each weight level reachable
    /// from `weight_level` with a single step
    ///
    /// The weight levels are sorted in ascending order.
    /// Multiple entries with the same weight level are sorted by weight index in ascending order.
    pub fn get_successors(&self, weight_level: usize) -> (successors: Vec<(usize, usize)>)
        requires
            self.wf(),
        ensures
            is_successor_list(
                self@.weights,
                self@.threshold as int,
                weight_level as int,
                successors@,
            ),
    {
        let mut successors: Vec<(usize, usize)> = Vec::new();
        if weight_level > self.threshold {
            return successors;
        }
        let room: usize = self.threshold - weight_level;
        let mut q: usize = 0;
        while q < self.sorted_weights.len()
            invariant
                self.wf(),
                weight_level <= self.threshold,
                room == self.threshold - weight_level,
                q <= self.sorted_weights@.len(),
                forall|p: int|
                    0 <= p < successors@.len() ==> (#[trigger] successors@[p]).0 < self@.weights.len()
                        && successors@[p].1 == weight_level + self@.weights[successors@[p].0 as int]
                        && successors@[p].1 <= self.threshold,
                forall|p: int, r: int|
                    0 <= p < r < successors@.len() ==> precedes(
                        self@.weights,
                        successors@[p].0 as int,
                        successors@[r].0 as int,
                    ),
                forall|p: int, r: int|
                    0 <= p < successors@.len() && q <= r < self.sorted_weights@.len() ==> precedes(
                        self@.weights,
                        (#[trigger] successors@[p]).0 as int,
                        (#[trigger] self.sorted_weights@[r]).0 as int,
                    ),
                forall|r: int|
                    0 <= r < q && (#[trigger] self.sorted_weights@[r]).1 <= room ==> lists_symbol(
                        successors@,
                        self.sorted_weights@[r].0 as int,
                    ),
            decreases self.sorted_weights@.len() - q,
        {
            let (weight_index, weight) = self.sorted_weights[q];
            if weight <= room {
                let ghost before = successors@;
                successors.push((weight_index, weight_level + weight));
                proof {
                    assert forall|r: int|
                        0 <= r < q + 1 && (#[trigger] self.sorted_weights@[r]).1 <= room implies lists_symbol(
                        successors@,
                        self.sorted_weights@[r].0 as int,
                    ) by {
                        if r < q {
                            assert(lists_symbol(before, self.sorted_weights@[r].0 as int));
                            let p = choose|p: int|
                                0 <= p < before.len() && (#[trigger] before[p]).0
                                    == self.sorted_weights@[r].0;
                            assert(successors@[p] == before[p]);
                        } else {
                            assert(successors@[before.len() as int].0 == weight_index);
                        }
                    }
                }
            }
            q += 1;
        }
        proof {
            assert forall|i: int|
                0 <= i < self@.weights.len() && weight_level + self@.weights[i]
                    <= self@.threshold implies #[trigger] lists_symbol(successors@, i) by {
                assert(lists_symbol(self.sorted_weights@, i));
                let r = choose|r: int|
                    0 <= r < self.sorted_weights@.len() && (#[trigger] self.sorted_weights@[r]).0 == i;
                assert(self.sorted_weights@[r].1 <= room);
            }
        }
        successors
    }

    /// Returns a [Vec] of (weight_index, weight_level) for each weight level which
    /// can reach `weight_level` with a single step
    ///
    /// The tuples are sorted in ascending order wrt. the weight_level values.
    /// Multiple tuples with the same `weight_level` are sorted in descending order wrt. the
    /// `weight_index`.
    pub fn get_predecessors(&self, weight_level: usize) -> (predecessors: Vec<(usize, usize)>)
        requires
            self.wf(),
        ensures
            is_predecessor_list(self@.weights, self@.levels, weight_level as int, predecessors@),
    {
        let mut predecessors: Vec<(usize, usize)> = Vec::new();
        let mut q: usize = self.sorted_weights.len();
        while q > 0
            invariant
                self.wf(),
                q <= self.sorted_weights@.len(),
                forall|p: int|
                    0 <= p < predecessors@.len() ==> (#[trigger] predecessors@[p]).0
                        < self@.weights.len() && predecessors@[p].1 == weight_level
                        - self@.weights[predecessors@[p].0 as int] && lists(
                        self@.levels,
                        predecessors@[p].1 as int,
                    ),
                forall|p: int, r: int|
                    0 <= p < r < predecessors@.len() ==> precedes(
                        self@.weights,
                        predecessors@[r].0 as int,
                        predecessors@[p].0 as int,
                    ),
                forall|p: int, r: int|
                    0 <= p < predecessors@.len() && 0 <= r < q ==> precedes(
                        self@.weights,
                        (#[trigger] self.sorted_weights@[r]).0 as int,
                        (#[trigger] predecessors@[p]).0 as int,
                    ),
                forall|r: int|
                    q <= r < self.sorted_weights@.len() && lists(
                        self@.levels,
                        weight_level - (#[trigger] self.sorted_weights@[r]).1,
                    ) ==> lists_symbol(predecessors@, self.sorted_weights@[r].0 as int),
            decreases q,
        {
            q -= 1;
            let (weight_index, weight) = self.sorted_weights[q];
            let ghost before = predecessors@;
            let mut pushed: bool = false;
            if weight_level >= weight {
                let possible_predecessor: usize = weight_level - weight;
                if self.wl_valid(possible_predecessor) {
                    predecessors.push((weight_index, possible_predecessor));
                    pushed = true;
                }
            } else {
                proof {
                    if lists(self@.levels, weight_level - weight) {
                        let c = choose|c: int|
                            0 <= c < self@.levels.len() && self@.levels[c] == weight_level - weight;
                        assert(false);
                    }
                }
            }
            proof {
                assert forall|r: int|
                    q <= r < self.sorted_weights@.len() && lists(
                        self@.levels,
                        weight_level - (#[trigger] self.sorted_weights@[r]).1,
                    ) implies lists_symbol(predecessors@, self.sorted_weights@[r].0 as int) by {
                    if r > q {
                        assert(lists_symbol(before, self.sorted_weights@[r].0 as int));
                        let p = choose|p: int|
                            0 <= p < before.len() && (#[trigger] before[p]).0
                                == self.sorted_weights@[r].0;
                        assert(predecessors@[p] == before[p]);
                    } else {
                        assert(pushed);
                        assert(predecessors@[before.len() as int].0 == weight_index);
                    }
                }
            }
        }
        proof {
            assert forall|i: int|
                0 <= i < self@.weights.len() && lists(
                    self@.levels,
                    weight_level - self@.weights[i],
                ) implies #[trigger] lists_symbol(predecessors@, i) by {
                assert(lists_symbol(self.sorted_weights@, i));
                let r = choose|r: int|
                    0 <= r < self.sorted_weights@.len() && (#[trigger] self.sorted_weights@[r]).0 == i;
                assert(self.sorted_weights@[r].1 == self@.weights[i]);
            }
        }
        predecessors
    }
}

impl PartialEq for Trellis {
    /// Two trellises are equal if they have the same weights and the same
    /// table.
    fn eq(&self, other: &Self) -> (equal: bool) {
        if self.data.len() != other.data.len() || self.weights.len() != other.weights.len() {
            proof {
                assert(self@.values.len() != other@.values.len() || self@.weights.len()
                    != other@.weights.len());
            }
            return false;
        }
        let mut k: usize = 0;
        while k < self.weights.len()
            invariant
                k <= self.weights@.len(),
                self.weights@.len() == other.weights@.len(),
                forall|i: int| 0 <= i < k ==> self.weights@[i] == other.weights@[i],
            decreases self.weights@.len() - k,
        {
            if self.weights[k] != other.weights[k] {
                return false;
            }
            k += 1;
        }
        let mut i: usize = 0;
        while i < self.data.len()
            invariant
                i <= self.data@.len(),
                self.data@.len() == other.data@.len(),
                self.weights@ =~= other.weights@,
                forall|s: int| 0 <= s < i ==> #[trigger] self@.values[s] == other@.values[s],
            decreases self.data@.len() - i,
        {
            if self.data[i].len() != other.data[i].len() {
                proof {
                    assert(self@.values[i as int].len() != other@.values[i as int].len());
                }
                return false;
            }
            let mut j: usize = 0;
            while j < self.data[i].len()
                invariant
                    i < self.data@.len(),
                    self.data@.len() == other.data@.len(),
                    j <= self.data@[i as int]@.len(),
                    self.data@[i as int]@.len() == other.data@[i as int]@.len(),
                    forall|c: int|
                        0 <= c < j ==> int_val(#[trigger] self.data@[i as int]@[c]) == int_val(
                            other.data@[i as int]@[c],
                        ),
                decreases self.data@[i as int]@.len() - j,
            {
                if !big_eq(&self.data[i][j], &other.data[i][j]) {
                    proof {
                        assert(self@.values[i as int][j as int] != other@.values[i as int][j as int]);
                    }
                    return false;
                }
                j += 1;
            }
            proof {
                assert(self@.values[i as int] =~= other@.values[i as int]);
            }
            i += 1;
        }
        proof {
            assert(self@.values =~= other@.values);
        }
        true
    }
}

impl vstd::std_specs::cmp::PartialEqSpecImpl for Trellis {
    open spec fn obeys_eq_spec() -> bool {
        true
    }

    open spec fn eq_spec(&self, other: &Self) -> bool {
        self@.same_table(other@)
    }
}

impl Eq for Trellis {

}

impl TrellisView {
    /// Two trellises differ at most in the entries of their tables.
    pub open spec fn same_shape(self, other: TrellisView) -> bool {
        &&& self.threshold == other.threshold
        &&& self.n_max == other.n_max
        &&& self.weights == other.weights
        &&& self.levels == other.levels
        &&& self.num_levels == other.num_levels
    }
}

/// The symbols of a list of pairs of a symbol and a weight level.
pub open spec fn symbols_in(l: Seq<(usize, usize)>) -> Seq<int> {
    Seq::new(l.len(), |q: int| l[q].0 as int)
}

/// A list of successors holds each symbol that keeps within the threshold
/// once, in the order of the successors, so that ahead of an entry stand
/// exactly the symbols that come before it.
pub proof fn lemma_successor_symbols(w: Seq<usize>, t: int, wl: int, l: Seq<(usize, usize)>)
    requires
        is_successor_list(w, t, wl, l),
    ensures
        distinct_indices(symbols_in(l), w.len() as int),
        forall|p: int, r: int|
            0 <= p < r < l.len() ==> precedes(w, #[trigger] symbols_in(l)[p], #[trigger] symbols_in(l)[r]),
        forall|j: int| 0 <= j < w.len() && wl + w[j] <= t ==> #[trigger] symbols_in(l).contains(j),
        forall|j: int| 0 <= j < w.len() && #[trigger] symbols_in(l).contains(j) ==> wl + w[j] <= t,
        forall|q: int, j: int|
            0 <= q < l.len() && 0 <= j < w.len() && precedes(w, j, l[q].0 as int)
                ==> #[trigger] symbols_in(l).take(q).contains(j),
{
    let syms = symbols_in(l);
    assert forall|p: int, r: int| 0 <= p < r < l.len() implies precedes(
        w,
        #[trigger] syms[p],
        #[trigger] syms[r],
    ) by {
        assert(precedes(w, l[p].0 as int, l[r].0 as int));
    }
    assert forall|j: int| 0 <= j < w.len() && wl + w[j] <= t implies #[trigger] syms.contains(j) by {
        assert(lists_symbol(l, j));
        let q = choose|q: int| 0 <= q < l.len() && (#[trigger] l[q]).0 == j;
        assert(syms[q] == j);
    }
    assert forall|j: int| 0 <= j < w.len() && #[trigger] syms.contains(j) implies wl + w[j] <= t by {
        let q = choose|q: int| 0 <= q < syms.len() && syms[q] == j;
        assert(l[q].0 == j);
    }
    assert forall|q: int, j: int|
        0 <= q < l.len() && 0 <= j < w.len() && precedes(w, j, l[q].0 as int) implies #[trigger] syms.take(
        q,
    ).contains(j) by {
        assert(l[q].1 <= t);
        assert(wl + w[j] <= t);
        assert(lists_symbol(l, j));
        let p = choose|p: int| 0 <= p < l.len() && (#[trigger] l[p].0) == j;
        if p > q {
            assert(precedes(w, l[q].0 as int, l[p].0 as int));
        }
        assert(p < q);
        assert(syms.take(q)[p] == j);
    }
    assert forall|p: int, r: int| 0 <= p < r < syms.len() implies syms[p] != syms[r] by {
        assert(precedes(w, syms[p], syms[r]));
    }
    assert forall|q: int| 0 <= q < syms.len() implies 0 <= #[trigger] syms[q] < w.len() by {
        assert(l[q].0 < w.len());
    }
}

/// A list of predecessors holds each symbol that leads here from a weight
/// level once, in the order of the predecessors, so that ahead of an entry
/// stand exactly such symbols that come after it in the order of the
/// successors.
pub proof fn lemma_predecessor_symbols(w: Seq<usize>, levels: Seq<usize>, wl: int, l: Seq<(usize, usize)>)
    requires
        is_predecessor_list(w, levels, wl, l),
    ensures
        distinct_indices(symbols_in(l), w.len() as int),
        forall|p: int, r: int|
            0 <= p < r < l.len() ==> precedes(w, #[trigger] symbols_in(l)[r], #[trigger] symbols_in(l)[p]),
        forall|j: int| 0 <= j < w.len() && lists(levels, wl - w[j]) ==> #[trigger] symbols_in(l).contains(j),
        forall|j: int| 0 <= j < w.len() && #[trigger] symbols_in(l).contains(j) ==> lists(levels, wl - w[j]),
        forall|q: int, j: int|
            0 <= q < l.len() && 0 <= j < w.len() && precedes(w, l[q].0 as int, j) && lists(
                levels,
                wl - w[j],
            ) ==> #[trigger] symbols_in(l).take(q).contains(j),
{
    let syms = symbols_in(l);
    assert forall|p: int, r: int| 0 <= p < r < l.len() implies precedes(
        w,
        #[trigger] syms[r],
        #[trigger] syms[p],
    ) by {
        assert(precedes(w, l[r].0 as int, l[p].0 as int));
    }
    assert forall|j: int| 0 <= j < w.len() && lists(levels, wl - w[j]) implies #[trigger] syms.contains(
        j,
    ) by {
        assert(lists_symbol(l, j));
        let q = choose|q: int| 0 <= q < l.len() && (#[trigger] l[q]).0 == j;
        assert(syms[q] == j);
    }
    assert forall|j: int| 0 <= j < w.len() && #[trigger] syms.contains(j) implies lists(
        levels,
        wl - w[j],
    ) by {
        let q = choose|q: int| 0 <= q < syms.len() && syms[q] == j;
        assert(l[q].0 == j);
    }
    assert forall|q: int, j: int|
        0 <= q < l.len() && 0 <= j < w.len() && precedes(w, l[q].0 as int, j) && lists(
            levels,
            wl - w[j],
        ) implies #[trigger] syms.take(q).contains(j) by {
        assert(lists_symbol(l, j));
        let p = choose|p: int| 0 <= p < l.len() && (#[trigger] l[p].0) == j;
        if p > q {
            assert(precedes(w, l[p].0 as int, l[q].0 as int));
        }
        assert(p < q);
        assert(syms.take(q)[p] == j);
    }
    assert forall|p: int, r: int| 0 <= p < r < syms.len() implies syms[p] != syms[r] by {
        assert(precedes(w, syms[r], syms[p]));
    }
    assert forall|q: int| 0 <= q < syms.len() implies 0 <= #[trigger] syms[q] < w.len() by {
        assert(l[q].0 < w.len());
    }
}

} // verus!

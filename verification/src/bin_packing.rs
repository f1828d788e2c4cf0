//! The search engine proper: vehicle expansion, grouping by location,
//! exhaustive subset enumeration per location, feasibility checking by
//! backtracking assignment, and the greedy row-based 2-D packing rule.

use vstd::prelude::*;

use crate::model::{Listing, ListingV, PossibleSpace, PossibleSpaceV, Vehicle};

verus! {

/// The flat sequence of unit lengths a vehicle request sequence expands to:
/// `quantity` copies of each `length`, in request order. A non-positive
/// quantity contributes nothing.
pub open spec fn expand_spec(s: Seq<Vehicle>) -> Seq<i32>
    decreases s.len(),
{
    if s.len() == 0 {
        Seq::empty()
    } else {
        expand_spec(s.drop_last()) + repeat_length(s.last())
    }
}

/// `quantity` copies of `length`; empty when the quantity is not positive.
pub open spec fn repeat_length(v: Vehicle) -> Seq<i32> {
    if v.quantity <= 0 {
        Seq::empty()
    } else {
        Seq::new(v.quantity as nat, |i: int| v.length)
    }
}

/// Flatten quantity-bearing vehicle requests into one unit length per
/// requested vehicle, in request order.
pub fn expand_vehicles(vehicles: Vec<Vehicle>) -> (r: Vec<i32>)
    ensures
        r@ == expand_spec(vehicles@),
{
    let s = Ghost(vehicles@);
    let mut expanded: Vec<i32> = Vec::new();
    let n = vehicles.len();
    let mut i: usize = 0;
    proof {
        assert(s@.take(0) =~= Seq::<Vehicle>::empty());
        assert(expanded@ =~= expand_spec(s@.take(0)));
    }
    while i < n
        invariant
            0 <= i <= n,
            n == s@.len(),
            s@ == vehicles@,
            expanded@ == expand_spec(s@.take(i as int)),
        decreases n - i,
    {
        let vehicle = vehicles[i];
        let mut j: i32 = 0;
        proof {
            assert(expanded@ =~= expand_spec(s@.take(i as int))
                + Seq::new(0nat, |k: int| vehicle.length));
        }
        while j < vehicle.quantity
            invariant
                0 <= i < n,
                n == s@.len(),
                s@ == vehicles@,
                vehicle == s@[i as int],
                0 <= j,
                j <= vehicle.quantity || j == 0,
                expanded@ == expand_spec(s@.take(i as int))
                    + Seq::new(j as nat, |k: int| vehicle.length),
            decreases vehicle.quantity - j,
        {
            expanded.push(vehicle.length);
            proof {
                assert(expanded@ =~= expand_spec(s@.take(i as int))
                    + Seq::new((j + 1) as nat, |k: int| vehicle.length));
            }
            j = j + 1;
        }
        proof {
            assert(s@.take(i + 1).drop_last() =~= s@.take(i as int));
            assert(s@.take(i + 1).last() == s@[i as int]);
            if vehicle.quantity <= 0 {
                assert(expanded@ =~= expand_spec(s@.take(i + 1)));
            } else {
                assert(Seq::new(j as nat, |k: int| vehicle.length)
                    =~= repeat_length(vehicle));
                assert(expanded@ =~= expand_spec(s@.take(i + 1)));
            }
        }
        i = i + 1;
    }
    proof {
        assert(s@.take(n as int) =~= s@);
    }
    expanded
}

/// The longer side of a listing's footprint: rows run along it.
pub open spec fn primary_of(l: ListingV) -> int {
    if l.length >= l.width {
        l.length
    } else {
        l.width
    }
}

/// The shorter side of a listing's footprint: it bounds how many rows fit.
pub open spec fn secondary_of(l: ListingV) -> int {
    if l.length >= l.width {
        l.width
    } else {
        l.length
    }
}

/// Orient a listing: the larger dimension becomes primary, whichever field
/// supplied it.
pub fn get_orientation(listing: &Listing) -> (r: (i32, i32))
    ensures
        r.0 as int == primary_of(listing@),
        r.1 as int == secondary_of(listing@),
{
    if listing.length >= listing.width {
        (listing.length, listing.width)
    } else {
        (listing.width, listing.length)
    }
}

/// The ids of a listing sequence, in order.
pub open spec fn ids_of(s: Seq<ListingV>) -> Seq<Seq<char>> {
    s.map_values(|l: ListingV| l.id)
}

/// Sum of the prices of a listing sequence.
pub open spec fn subset_price(s: Seq<ListingV>) -> int
    decreases s.len(),
{
    if s.len() == 0 {
        0
    } else {
        subset_price(s.drop_last()) + s.last().price_in_cents
    }
}

/// The cheapest feasible listing subset found at one location: the chosen
/// listings' ids and their total price.
pub struct CheapestCombo {
    pub listing_ids: Vec<String>,
    pub total_price_in_cents: i32,
}

/// The mathematical value of a [`CheapestCombo`].
pub ghost struct CheapestComboV {
    pub listing_ids: Seq<Seq<char>>,
    pub total_price_in_cents: int,
}

impl View for CheapestCombo {
    type V = CheapestComboV;

    open spec fn view(&self) -> CheapestComboV {
        CheapestComboV {
            listing_ids: self.listing_ids.deep_view(),
            total_price_in_cents: self.total_price_in_cents as int,
        }
    }
}

impl DeepView for CheapestCombo {
    type V = CheapestComboV;

    open spec fn deep_view(&self) -> CheapestComboV {
        self@
    }
}

impl CheapestCombo {
    /// Record the ids and the already-computed total price of a feasible
    /// listing subset.
    pub fn from_listings(listings: &Vec<Listing>, total_price_in_cents: i32) -> (r: Self)
        ensures
            r@.listing_ids == ids_of(listings.deep_view()),
            r@.total_price_in_cents == total_price_in_cents as int,
    {
        let ls = Ghost(listings.deep_view());
        let mut listing_ids: Vec<String> = Vec::new();
        let n = listings.len();
        let mut i: usize = 0;
        proof {
            assert(listing_ids.deep_view() =~= ids_of(ls@.take(0)));
        }
        while i < n
            invariant
                0 <= i <= n,
                n == listings.len(),
                ls@ == listings.deep_view(),
                ls@.len() == n,
                listing_ids.deep_view() == ids_of(ls@.take(i as int)),
            decreases n - i,
        {
            proof {
                assert(ids_of(ls@.take(i as int)).len() == i as int);
                assert(listing_ids.deep_view().len() == i as int);
                assert(listing_ids@.len() == i as int);
            }
            let id_i = listings[i].id.clone();
            let ghost prev = listing_ids.deep_view();
            let ghost prev_vec = listing_ids@;
            listing_ids.push(id_i);
            proof {
                assert(listing_ids@ == prev_vec.push(id_i));
                assert(prev_vec.len() == i as int);
                assert(listing_ids@.len() == i + 1);
                assert forall|k: int| 0 <= k < i + 1
                    implies listing_ids.deep_view()[k] == ids_of(ls@.take(i + 1))[k] by {
                    if k < i {
                        assert(listing_ids@[k] == prev_vec[k]);
                        assert(prev[k] == ids_of(ls@.take(i as int))[k]);
                    } else {
                        assert(listing_ids@[k] == id_i);
                        assert(id_i@ == listings@[i as int].id@);
                    }
                }
                assert(listing_ids.deep_view() =~= ids_of(ls@.take(i + 1)));
            }
            i = i + 1;
        }
        proof {
            assert(ls@.take(n as int) =~= ls@);
        }
        CheapestCombo { listing_ids, total_price_in_cents }
    }
}


/// Insert a length into a descending-sorted sequence, after every element at
/// least as large and before the first strictly smaller one.
pub open spec fn insert_desc(x: i32, s: Seq<i32>) -> Seq<i32>
    decreases s.len(),
{
    if s.len() == 0 {
        seq![x]
    } else if s[0] >= x {
        seq![s[0]] + insert_desc(x, s.drop_first())
    } else {
        seq![x] + s
    }
}

/// The lengths rearranged into descending order, by insertion.
pub open spec fn sort_desc(s: Seq<i32>) -> Seq<i32>
    decreases s.len(),
{
    if s.len() == 0 {
        Seq::empty()
    } else {
        insert_desc(s.last(), sort_desc(s.drop_last()))
    }
}

/// Inserting at the position where every earlier element is at least `x` and
/// the element there, if any, is smaller, is what `insert_desc` does.
proof fn lemma_insert_desc_at(x: i32, s: Seq<i32>, p: int)
    requires
        0 <= p <= s.len(),
        forall|j: int| 0 <= j < p ==> s[j] >= x,
        p < s.len() ==> s[p] < x,
    ensures
        insert_desc(x, s) == s.insert(p, x),
    decreases p,
{
    if p == 0 {
        if s.len() == 0 {
            assert(insert_desc(x, s) =~= s.insert(0, x));
        } else {
            assert(s[0] < x);
            assert(insert_desc(x, s) =~= s.insert(0, x));
        }
    } else {
        assert(s[0] >= x);
        lemma_insert_desc_at(x, s.drop_first(), p - 1);
        assert(insert_desc(x, s) == seq![s[0]] + s.drop_first().insert(p - 1, x));
        assert(seq![s[0]] + s.drop_first().insert(p - 1, x) =~= s.insert(p, x));
    }
}

/// Insertion adds exactly the inserted length to the multiset of lengths.
proof fn lemma_insert_desc_multiset(x: i32, s: Seq<i32>)
    ensures
        insert_desc(x, s).to_multiset() == s.to_multiset().insert(x),
    decreases s.len(),
{
    broadcast use vstd::seq_lib::group_to_multiset_ensures;

    if s.len() == 0 {
        assert(insert_desc(x, s) =~= Seq::<i32>::empty().push(x));
        assert(Seq::<i32>::empty().push(x).to_multiset() =~= s.to_multiset().insert(x));
    } else if s[0] >= x {
        lemma_insert_desc_multiset(x, s.drop_first());
        assert(insert_desc(x, s) =~= insert_desc(x, s.drop_first()).insert(0, s[0]));
        vstd::seq_lib::to_multiset_insert(insert_desc(x, s.drop_first()), 0, s[0]);
        assert(s =~= s.drop_first().insert(0, s[0]));
        vstd::seq_lib::to_multiset_insert(s.drop_first(), 0, s[0]);
        assert(insert_desc(x, s).to_multiset()
            =~= s.to_multiset().insert(x));
    } else {
        assert(insert_desc(x, s) =~= s.insert(0, x));
        vstd::seq_lib::to_multiset_insert(s, 0, x);
    }
}

/// Sorting rearranges the lengths: the multiset of lengths is unchanged.
pub proof fn lemma_sort_desc_multiset(s: Seq<i32>)
    ensures
        sort_desc(s).to_multiset() == s.to_multiset(),
    decreases s.len(),
{
    broadcast use vstd::seq_lib::group_to_multiset_ensures;

    if s.len() > 0 {
        lemma_sort_desc_multiset(s.drop_last());
        lemma_insert_desc_multiset(s.last(), sort_desc(s.drop_last()));
        assert(s =~= s.drop_last().push(s.last()));
        assert(s.drop_last().push(s.last()).to_multiset()
            == s.drop_last().to_multiset().insert(s.last()));
    }
}

/// Every sorted length was among the input lengths.
proof fn lemma_sort_desc_elements(s: Seq<i32>, k: int)
    requires
        0 <= k < sort_desc(s).len(),
    ensures
        s.contains(sort_desc(s)[k]),
{
    broadcast use vstd::seq_lib::group_to_multiset_ensures;

    lemma_sort_desc_multiset(s);
    assert(sort_desc(s).contains(sort_desc(s)[k]));
    assert(sort_desc(s).to_multiset().count(sort_desc(s)[k]) > 0);
}

/// Index of the first row whose used length still admits a vehicle of length
/// `v` within the `primary` capacity; `None` when no row admits it.
pub open spec fn first_fit_row(rows: Seq<int>, v: int, primary: int) -> Option<int>
    decreases rows.len(),
{
    if rows.len() == 0 {
        None
    } else if rows[0] + v <= primary {
        Some(0int)
    } else {
        match first_fit_row(rows.drop_first(), v, primary) {
            None => None,
            Some(k) => Some(k + 1),
        }
    }
}

/// Scanning rows in order and stopping at the first fit computes
/// `first_fit_row`.
proof fn lemma_first_fit_row_at(rows: Seq<int>, v: int, primary: int, p: int)
    requires
        0 <= p <= rows.len(),
        forall|j: int| 0 <= j < p ==> #[trigger] rows[j] + v > primary,
        p < rows.len() ==> rows[p] + v <= primary,
    ensures
        first_fit_row(rows, v, primary) == if p == rows.len() {
            Option::<int>::None
        } else {
            Option::<int>::Some(p)
        },
    decreases p,
{
    if p == 0 {
    } else {
        assert(rows[0] + v > primary);
        lemma_first_fit_row_at(rows.drop_first(), v, primary, p - 1);
    }
}

/// Greedy first-fit placement: each length, in the given order, goes into the
/// first row that still admits it; the whole placement fails as soon as one
/// length fits nowhere.
pub open spec fn ffd_place(vehicles: Seq<i32>, rows: Seq<int>, primary: int) -> bool
    decreases vehicles.len(),
{
    if vehicles.len() == 0 {
        true
    } else {
        match first_fit_row(rows, vehicles[0] as int, primary) {
            None => false,
            Some(k) => ffd_place(
                vehicles.drop_first(),
                rows.update(k, rows[k] + vehicles[0]),
                primary,
            ),
        }
    }
}

/// Whether a set of vehicles, the already-assigned lengths plus one new
/// vehicle, fits a footprint of the given oriented dimensions: rows of the
/// fixed vehicle width are cut from the secondary dimension, the lengths are
/// sorted descending, and each is placed first-fit into the rows along the
/// primary dimension.
pub open spec fn fits_spec(existing: Seq<i32>, new_vehicle: i32, primary: int, secondary: int) -> bool {
    if Vehicle::WIDTH as int > secondary {
        false
    } else {
        let num_rows = secondary / (Vehicle::WIDTH as int);
        if num_rows == 0 {
            false
        } else {
            ffd_place(
                sort_desc(existing.push(new_vehicle)),
                Seq::new(num_rows as nat, |i: int| 0int),
                primary,
            )
        }
    }
}

/// Sort the lengths in descending order.
fn sort_lengths_desc(v: &Vec<i32>) -> (r: Vec<i32>)
    ensures
        r@ == sort_desc(v@),
{
    let n = v.len();
    let mut result: Vec<i32> = Vec::new();
    let mut i: usize = 0;
    proof {
        assert(v@.take(0) =~= Seq::<i32>::empty());
    }
    while i < n
        invariant
            0 <= i <= n,
            n == v@.len(),
            result@ == sort_desc(v@.take(i as int)),
            result@.len() == i as int,
        decreases n - i,
    {
        let x = v[i];
        let mut p: usize = 0;
        while p < result.len() && result[p] >= x
            invariant
                0 <= p <= result@.len(),
                forall|j: int| 0 <= j < p ==> result@[j] >= x,
            decreases result@.len() - p,
        {
            p = p + 1;
        }
        let ghost before = result@;
        result.insert(p, x);
        proof {
            lemma_insert_desc_at(x, before, p as int);
            assert(v@.take(i + 1).drop_last() =~= v@.take(i as int));
            assert(v@.take(i + 1).last() == v@[i as int]);
            assert(result@ == sort_desc(v@.take(i + 1)));
        }
        i = i + 1;
    }
    proof {
        assert(v@.take(n as int) =~= v@);
    }
    result
}

/// The lengths sorted descending are still lengths of the input: each is
/// positive when every input length is.
proof fn lemma_sort_desc_positive(s: Seq<i32>)
    requires
        forall|j: int| 0 <= j < s.len() ==> #[trigger] s[j] > 0,
    ensures
        forall|k: int| 0 <= k < sort_desc(s).len() ==> #[trigger] sort_desc(s)[k] > 0,
{
    broadcast use vstd::seq_lib::group_to_multiset_ensures;

    assert forall|k: int| 0 <= k < sort_desc(s).len()
        implies #[trigger] sort_desc(s)[k] > 0 by {
        lemma_sort_desc_elements(s, k);
        let w = choose|w: int| 0 <= w < s.len() && s[w] == sort_desc(s)[k];
        assert(s[w] > 0);
    }
}

/// The used lengths of the packing rows, as unbounded integers.
pub open spec fn rows_ints(s: Seq<i32>) -> Seq<int> {
    s.map_values(|x: i32| x as int)
}

/// Decide whether the already-assigned vehicle lengths plus one new vehicle
/// fit a footprint of the given oriented dimensions, by greedy row packing:
/// rows of width [`Vehicle::WIDTH`] are cut from the secondary dimension and
/// lengths are placed first-fit in descending order along the primary one.
/// The placement is a heuristic and is recomputed from scratch on every call.
pub fn try_fit_vehicles_in_dimension(
    existing_vehicles: &[i32],
    new_vehicle: i32,
    primary_dim: i32,
    secondary_dim: i32,
) -> (r: bool)
    requires
        forall|j: int| 0 <= j < existing_vehicles@.len() ==> #[trigger] existing_vehicles@[j] > 0,
        new_vehicle > 0,
    ensures
        r == fits_spec(existing_vehicles@, new_vehicle, primary_dim as int, secondary_dim as int),
{
    if Vehicle::WIDTH > secondary_dim {
        return false;
    }
    let num_rows = secondary_dim / Vehicle::WIDTH;
    assert(num_rows as int == secondary_dim as int / Vehicle::WIDTH as int);
    if num_rows == 0 {
        return false;
    }

    let mut all_vehicles: Vec<i32> = vstd::slice::slice_to_vec(existing_vehicles);
    all_vehicles.push(new_vehicle);
    let ghost all0 = all_vehicles@;
    proof {
        assert(all0 == existing_vehicles@.push(new_vehicle));
        assert forall|j: int| 0 <= j < all0.len() implies #[trigger] all0[j] > 0 by {
            if j < existing_vehicles@.len() {
                assert(existing_vehicles@[j] > 0);
            }
        }
        lemma_sort_desc_positive(all0);
    }
    let sorted = sort_lengths_desc(&all_vehicles);

    let n_rows = num_rows as usize;
    let mut rows: Vec<i32> = Vec::new();
    let mut r: usize = 0;
    while r < n_rows
        invariant
            0 <= r <= n_rows,
            rows@.len() == r as int,
            forall|j: int| 0 <= j < r ==> #[trigger] rows@[j] == 0i32,
        decreases n_rows - r,
    {
        rows.push(0);
        r = r + 1;
    }
    let ghost init_rows = Seq::new(num_rows as nat, |i: int| 0int);
    proof {
        assert(rows_ints(rows@) =~= init_rows);
    }

    let ghost goal = fits_spec(
        existing_vehicles@,
        new_vehicle,
        primary_dim as int,
        secondary_dim as int,
    );
    let k_max = sorted.len();
    let mut k: usize = 0;
    proof {
        assert(sorted@.skip(0) =~= sorted@);
        assert(goal == ffd_place(sort_desc(all0), init_rows, primary_dim as int));
    }
    while k < k_max
        invariant
            0 <= k <= k_max,
            k_max == sorted@.len(),
            goal == fits_spec(
                existing_vehicles@,
                new_vehicle,
                primary_dim as int,
                secondary_dim as int,
            ),
            forall|j: int| 0 <= j < sorted@.len() ==> #[trigger] sorted@[j] > 0,
            rows@.len() == num_rows as int,
            forall|j: int| 0 <= j < rows@.len() ==> #[trigger] rows@[j] >= 0,
            goal == ffd_place(sorted@.skip(k as int), rows_ints(rows@), primary_dim as int),
        decreases k_max - k,
    {
        let vehicle_length = sorted[k];
        let ghost rs = rows_ints(rows@);
        let mut p: usize = 0;
        while p < rows.len() && rows[p] as i64 + vehicle_length as i64 > primary_dim as i64
            invariant
                0 <= p <= rows@.len(),
                rows_ints(rows@) == rs,
                rs.len() == rows@.len(),
                0 <= k < sorted@.len(),
                vehicle_length == sorted@[k as int],
                forall|j: int| 0 <= j < p ==> #[trigger] rs[j] + vehicle_length as int
                    > primary_dim as int,
            decreases rows@.len() - p,
        {
            p = p + 1;
        }
        proof {
            lemma_first_fit_row_at(
                rs,
                vehicle_length as int,
                primary_dim as int,
                p as int,
            );
            assert(sorted@.skip(k as int)[0] == sorted@[k as int]);
        }
        if p == rows.len() {
            proof {
                assert(ffd_place(sorted@.skip(k as int), rs, primary_dim as int) == false);
            }
            return false;
        }
        let row = rows[p];
        let new_row = row + vehicle_length;
        rows[p] = new_row;
        proof {
            assert(sorted@.skip(k as int).drop_first() =~= sorted@.skip(k + 1));
            assert(rows_ints(rows@) =~= rs.update(p as int, rs[p as int] + vehicle_length as int));
        }
        k = k + 1;
    }
    proof {
        assert(sorted@.skip(k_max as int) =~= Seq::<i32>::empty());
    }
    true
}


/// The lengths of the vehicles that a partial assignment has already placed
/// on the listing at `listing_idx`, in vehicle order. `assignment[v]` is the
/// listing index vehicle `v` was assigned to; only the first
/// `assignment.len()` vehicles are assigned yet.
pub open spec fn assigned_lengths(
    vehicles: Seq<i32>,
    assignment: Seq<usize>,
    listing_idx: int,
) -> Seq<i32>
    recommends
        assignment.len() <= vehicles.len(),
    decreases assignment.len(),
{
    if assignment.len() == 0 {
        Seq::empty()
    } else {
        assigned_lengths(vehicles, assignment.drop_last(), listing_idx) + if assignment.last()
            as int == listing_idx {
            seq![vehicles[assignment.len() - 1]]
        } else {
            Seq::empty()
        }
    }
}

/// Whether the next vehicle can join the vehicles a partial assignment has
/// already placed on this listing, under the packing rule of [`fits_spec`].
pub open spec fn can_add_spec(
    vehicles: Seq<i32>,
    listing: ListingV,
    assignment: Seq<usize>,
    listing_idx: int,
    new_vehicle_length: i32,
) -> bool {
    fits_spec(
        assigned_lengths(vehicles, assignment, listing_idx),
        new_vehicle_length,
        primary_of(listing),
        secondary_of(listing),
    )
}

/// A partial assignment of the first `assignment.len()` vehicles extends to a
/// complete assignment of all vehicles: either every vehicle is assigned, or
/// some listing admits the next vehicle and the extended assignment extends
/// in turn.
pub open spec fn backtrack_spec(
    vehicles: Seq<i32>,
    listings: Seq<ListingV>,
    assignment: Seq<usize>,
) -> bool
    decreases vehicles.len() - assignment.len(),
{
    if assignment.len() >= vehicles.len() {
        true
    } else {
        exists|idx: int|
            0 <= idx < listings.len() && #[trigger] can_add_spec(
                vehicles,
                listings[idx],
                assignment,
                idx,
                vehicles[assignment.len() as int],
            ) && backtrack_spec(vehicles, listings, assignment.push(idx as usize))
    }
}

/// All vehicles can be simultaneously assigned across the listings, each
/// listing's load passing the packing rule at every step.
pub open spec fn can_fit_spec(vehicles: Seq<i32>, listings: Seq<ListingV>) -> bool {
    backtrack_spec(vehicles, listings, Seq::empty())
}

/// Whether adding the next vehicle to one listing keeps that listing's
/// packing feasible, given the vehicles the partial assignment already placed
/// there.
pub fn can_add_vehicle_to_listing(
    vehicles: &[i32],
    listing: &Listing,
    assignment: &Vec<usize>,
    listing_idx: usize,
    new_vehicle_length: i32,
) -> (r: bool)
    requires
        assignment@.len() <= vehicles@.len(),
        forall|j: int| 0 <= j < vehicles@.len() ==> #[trigger] vehicles@[j] > 0,
        new_vehicle_length > 0,
    ensures
        r == can_add_spec(vehicles@, listing@, assignment@, listing_idx as int, new_vehicle_length),
{
    let mut assigned_vehicles: Vec<i32> = Vec::new();
    let n = assignment.len();
    let mut i: usize = 0;
    proof {
        assert(assignment@.take(0) =~= Seq::<usize>::empty());
    }
    while i < n
        invariant
            0 <= i <= n,
            n == assignment@.len(),
            n <= vehicles@.len(),
            forall|j: int| 0 <= j < vehicles@.len() ==> #[trigger] vehicles@[j] > 0,
            assigned_vehicles@ == assigned_lengths(
                vehicles@,
                assignment@.take(i as int),
                listing_idx as int,
            ),
            forall|j: int| 0 <= j < assigned_vehicles@.len()
                ==> #[trigger] assigned_vehicles@[j] > 0,
        decreases n - i,
    {
        proof {
            assert(assignment@.take(i + 1).drop_last() =~= assignment@.take(i as int));
            assert(assignment@.take(i + 1).last() == assignment@[i as int]);
        }
        if assignment[i] == listing_idx {
            assigned_vehicles.push(vehicles[i]);
            proof {
                assert(assigned_vehicles@ =~= assigned_lengths(
                    vehicles@,
                    assignment@.take(i + 1),
                    listing_idx as int,
                ));
            }
        } else {
            proof {
                assert(assigned_vehicles@ =~= assigned_lengths(
                    vehicles@,
                    assignment@.take(i + 1),
                    listing_idx as int,
                ));
            }
        }
        i = i + 1;
    }
    proof {
        assert(assignment@.take(n as int) =~= assignment@);
    }

    let (primary, secondary) = get_orientation(listing);

    try_fit_vehicles_in_dimension(
        assigned_vehicles.as_slice(),
        new_vehicle_length,
        primary,
        secondary,
    )
}

/// Depth-first search over assignments of the remaining vehicles. On success
/// the assignment holds a complete extension; on failure it is unchanged.
fn backtrack_assign(
    vehicles: &[i32],
    listings: &[Listing],
    assignment: &mut Vec<usize>,
) -> (r: bool)
    requires
        old(assignment)@.len() <= vehicles@.len(),
        forall|j: int| 0 <= j < vehicles@.len() ==> #[trigger] vehicles@[j] > 0,
    ensures
        r == backtrack_spec(vehicles@, listings.deep_view(), old(assignment)@),
        !r ==> final(assignment)@ == old(assignment)@,
    decreases vehicles@.len() - old(assignment)@.len(),
{
    let ghost a0 = assignment@;
    let ghost lv = listings.deep_view();
    let vehicle_idx = assignment.len();
    if vehicle_idx == vehicles.len() {
        return true;
    }

    let vehicle_length = vehicles[vehicle_idx];
    let n = listings.len();
    let mut idx: usize = 0;
    while idx < n
        invariant
            0 <= idx <= n,
            n == lv.len(),
            lv == listings.deep_view(),
            assignment@ == a0,
            a0 == old(assignment)@,
            a0.len() < vehicles@.len(),
            vehicle_length == vehicles@[a0.len() as int],
            forall|j: int| 0 <= j < vehicles@.len() ==> #[trigger] vehicles@[j] > 0,
            forall|t: int|
                0 <= t < idx ==> !(#[trigger] can_add_spec(
                    vehicles@,
                    lv[t],
                    a0,
                    t,
                    vehicle_length,
                ) && backtrack_spec(vehicles@, lv, a0.push(t as usize))),
        decreases n - idx,
    {
        if can_add_vehicle_to_listing(vehicles, &listings[idx], assignment, idx, vehicle_length) {
            assignment.push(idx);
            if backtrack_assign(vehicles, listings, assignment) {
                proof {
                    assert(can_add_spec(vehicles@, lv[idx as int], a0, idx as int, vehicle_length)
                        && backtrack_spec(vehicles@, lv, a0.push(idx)));
                    assert(backtrack_spec(vehicles@, lv, a0));
                }
                return true;
            }
            assignment.pop();
            proof {
                assert(assignment@ =~= a0);
            }
        }
        idx = idx + 1;
    }
    proof {
        assert(!backtrack_spec(vehicles@, lv, a0));
    }
    false
}

/// Whether every vehicle can be assigned to some listing of the subset so
/// that each listing's vehicles keep fitting, searching assignments
/// exhaustively with backtracking.
pub fn can_fit_all_vehicles(vehicles: &[i32], listings: &[Listing]) -> (r: bool)
    requires
        forall|j: int| 0 <= j < vehicles@.len() ==> #[trigger] vehicles@[j] > 0,
    ensures
        r == can_fit_spec(vehicles@, listings.deep_view()),
{
    let mut assignment: Vec<usize> = Vec::new();
    backtrack_assign(vehicles, listings, &mut assignment)
}


/// Whether bit `i` of `mask` is set, arithmetically: the i-th binary digit of
/// `mask` is one.
pub open spec fn bit_set(mask: nat, i: nat) -> bool {
    (mask / vstd::arithmetic::power2::pow2(i)) % 2 == 1
}

/// The listings whose index below `n` has its bit set in `mask`, in index
/// order.
pub open spec fn mask_subset_prefix(l: Seq<ListingV>, mask: nat, n: int) -> Seq<ListingV>
    decreases n,
{
    if n <= 0 {
        Seq::empty()
    } else {
        mask_subset_prefix(l, mask, n - 1) + if bit_set(mask, (n - 1) as nat) {
            seq![l[n - 1]]
        } else {
            Seq::empty()
        }
    }
}

/// The sub-sequence of listings selected by the bitmask `mask`.
pub open spec fn mask_subset(l: Seq<ListingV>, mask: nat) -> Seq<ListingV> {
    mask_subset_prefix(l, mask, l.len() as int)
}

/// The total price of the listings a bitmask selects.
pub open spec fn mask_price(l: Seq<ListingV>, mask: nat) -> int {
    subset_price(mask_subset(l, mask))
}

/// Whether all vehicles fit the subset of listings a bitmask selects.
pub open spec fn feasible_mask(vehicles: Seq<i32>, l: Seq<ListingV>, mask: nat) -> bool {
    can_fit_spec(vehicles, mask_subset(l, mask))
}

/// The bitmask of the cheapest feasible subset among masks `1 .. bound`,
/// scanning masks upward and replacing the best found so far only when a
/// subset is strictly cheaper; `None` when no scanned mask is feasible.
pub open spec fn best_mask_below(vehicles: Seq<i32>, l: Seq<ListingV>, bound: nat) -> Option<nat>
    decreases bound,
{
    if bound <= 1 {
        None
    } else {
        let m = (bound - 1) as nat;
        let prev = best_mask_below(vehicles, l, m);
        if feasible_mask(vehicles, l, m) {
            match prev {
                None => Some(m),
                Some(b) => if mask_price(l, m) < mask_price(l, b) {
                    Some(m)
                } else {
                    Some(b)
                },
            }
        } else {
            prev
        }
    }
}

/// The cheapest feasible combination at one location, as a mathematical
/// value: the ids and price of the subset `best_mask_below` settles on over
/// all non-empty subsets, or `None` when no subset is feasible.
pub open spec fn cheapest_combo_spec(vehicles: Seq<i32>, l: Seq<ListingV>) -> Option<
    CheapestComboV,
> {
    match best_mask_below(vehicles, l, vstd::arithmetic::power2::pow2(l.len())) {
        None => None,
        Some(bm) => Some(
            CheapestComboV {
                listing_ids: ids_of(mask_subset(l, bm)),
                total_price_in_cents: mask_price(l, bm),
            },
        ),
    }
}

/// What `best_mask_below` settles on: a feasible mask of minimal price, the
/// lowest such mask; or `None` exactly when no mask below the bound is
/// feasible.
pub proof fn lemma_best_mask_below_props(vehicles: Seq<i32>, l: Seq<ListingV>, bound: nat)
    ensures
        match best_mask_below(vehicles, l, bound) {
            None => forall|m: nat| 1 <= m < bound ==> !#[trigger] feasible_mask(vehicles, l, m),
            Some(bm) => {
                &&& 1 <= bm < bound
                &&& feasible_mask(vehicles, l, bm)
                &&& forall|m: nat|
                    1 <= m < bound && #[trigger] feasible_mask(vehicles, l, m) ==> mask_price(
                        l,
                        bm,
                    ) <= mask_price(l, m)
                &&& forall|m: nat|
                    1 <= m < bound && #[trigger] feasible_mask(vehicles, l, m) && mask_price(l, m)
                        == mask_price(l, bm) ==> bm <= m
            },
        },
    decreases bound,
{
    if bound > 1 {
        let m0 = (bound - 1) as nat;
        lemma_best_mask_below_props(vehicles, l, m0);
    }
}

/// A price sum over a bitmask-selected prefix is non-negative and at most the
/// price sum of that prefix, when every price is non-negative.
proof fn lemma_mask_prefix_price_bound(l: Seq<ListingV>, mask: nat, n: int)
    requires
        0 <= n <= l.len(),
        forall|j: int| 0 <= j < l.len() ==> #[trigger] l[j].price_in_cents >= 0,
    ensures
        0 <= subset_price(mask_subset_prefix(l, mask, n)),
        subset_price(mask_subset_prefix(l, mask, n)) <= subset_price(l.take(n)),
    decreases n,
{
    if n > 0 {
        lemma_mask_prefix_price_bound(l, mask, n - 1);
        assert(l.take(n).drop_last() =~= l.take(n - 1));
        assert(l.take(n).last() == l[n - 1]);
        let prefix = mask_subset_prefix(l, mask, n - 1);
        if bit_set(mask, (n - 1) as nat) {
            assert((prefix + seq![l[n - 1]]).drop_last() =~= prefix);
            assert((prefix + seq![l[n - 1]]).last() == l[n - 1]);
        } else {
            assert(prefix + Seq::<ListingV>::empty() =~= prefix);
        }
    }
}

/// The price sum of a prefix never exceeds the price sum of the whole
/// sequence, when every price is non-negative.
proof fn lemma_take_price_bound(l: Seq<ListingV>, n: int)
    requires
        0 <= n <= l.len(),
        forall|j: int| 0 <= j < l.len() ==> #[trigger] l[j].price_in_cents >= 0,
    ensures
        subset_price(l.take(n)) <= subset_price(l),
    decreases l.len() - n,
{
    if n == l.len() {
        assert(l.take(n) =~= l);
    } else {
        lemma_take_price_bound(l, n + 1);
        assert(l.take(n + 1).drop_last() =~= l.take(n));
        assert(l.take(n + 1).last() == l[n]);
    }
}

/// Raise two to the power `n`.
fn pow2_u64(n: usize) -> (r: u64)
    requires
        n < 64,
    ensures
        r as nat == vstd::arithmetic::power2::pow2(n as nat),
{
    let mut r: u64 = 1;
    let mut i: usize = 0;
    proof {
        vstd::arithmetic::power2::lemma2_to64();
    }
    while i < n
        invariant
            0 <= i <= n,
            n < 64,
            r as nat == vstd::arithmetic::power2::pow2(i as nat),
        decreases n - i,
    {
        proof {
            vstd::arithmetic::power2::lemma_pow2_unfold((i + 1) as nat);
            if i + 1 < 64 {
                vstd::arithmetic::power2::lemma_pow2_strictly_increases((i + 1) as nat, 64);
            }
            vstd::arithmetic::power2::lemma2_to64_rest();
        }
        r = r * 2;
        i = i + 1;
    }
    r
}

/// Find the cheapest combination of the location's listings that fits all
/// vehicles, trying every non-empty subset by bitmask, lower masks first, and
/// keeping the first subset of the lowest total price. `None` when no subset
/// is feasible. The subset enumeration is exhaustive, so the price of the
/// result is minimal over all feasible subsets.
pub fn find_cheapest_combination(vehicles: &[i32], listings: &[Listing]) -> (r: Option<
    CheapestCombo,
>)
    requires
        listings@.len() < 64,
        forall|j: int| 0 <= j < vehicles@.len() ==> #[trigger] vehicles@[j] > 0,
        forall|j: int|
            0 <= j < listings.deep_view().len() ==> #[trigger] listings.deep_view()[j]
                .price_in_cents >= 0,
        subset_price(listings.deep_view()) <= i32::MAX as int,
    ensures
        r.deep_view() == cheapest_combo_spec(vehicles@, listings.deep_view()),
        r is Some <==> exists|m: nat|
            1 <= m < vstd::arithmetic::power2::pow2(listings@.len()) && #[trigger] feasible_mask(
                vehicles@,
                listings.deep_view(),
                m,
            ),
        r matches Some(c) ==> exists|m: nat|
            1 <= m < vstd::arithmetic::power2::pow2(listings@.len()) && #[trigger] feasible_mask(
                vehicles@,
                listings.deep_view(),
                m,
            ) && c@.total_price_in_cents == mask_price(listings.deep_view(), m),
        r matches Some(c) ==> forall|m: nat|
            1 <= m < vstd::arithmetic::power2::pow2(listings@.len()) && #[trigger] feasible_mask(
                vehicles@,
                listings.deep_view(),
                m,
            ) ==> c@.total_price_in_cents <= mask_price(listings.deep_view(), m),
{
    let ghost lv = listings.deep_view();
    let n = listings.len();
    proof {
        assert(lv.len() == n as int);
    }

    let total = pow2_u64(n);
    proof {
        vstd::arithmetic::power2::lemma2_to64();
        vstd::arithmetic::power2::lemma_pow2_strictly_increases(n as nat, 64);
        vstd::arithmetic::power2::lemma_pow2_pos(n as nat);
    }

    let mut best: Option<CheapestCombo> = None;
    let ghost mut best_mask: nat = 0nat;
    let mut mask: u64 = 1;
    while mask < total
        invariant
            1 <= mask <= total,
            total as nat == vstd::arithmetic::power2::pow2(n as nat),
            n == listings@.len(),
            n < 64,
            lv == listings.deep_view(),
            lv.len() == n as int,
            forall|j: int| 0 <= j < vehicles@.len() ==> #[trigger] vehicles@[j] > 0,
            forall|j: int| 0 <= j < lv.len() ==> #[trigger] lv[j].price_in_cents >= 0,
            subset_price(lv) <= i32::MAX as int,
            best is None ==> best_mask_below(vehicles@, lv, mask as nat) is None,
            best is Some ==> {
                &&& best_mask_below(vehicles@, lv, mask as nat) == Some(best_mask)
                &&& best->Some_0@.listing_ids == ids_of(mask_subset(lv, best_mask))
                &&& best->Some_0@.total_price_in_cents == mask_price(lv, best_mask)
            },
        decreases total - mask,
    {
        let mut selected_listings: Vec<Listing> = Vec::new();
        let mut total_price: i32 = 0;
        let mut m_rem: u64 = mask;
        let mut i: usize = 0;
        proof {
            vstd::arithmetic::power2::lemma2_to64();
            assert(selected_listings.deep_view() =~= mask_subset_prefix(lv, mask as nat, 0));
        }
        while i < n
            invariant
                0 <= i <= n,
                n == listings@.len(),
                lv == listings.deep_view(),
                lv.len() == n as int,
                forall|j: int| 0 <= j < lv.len() ==> #[trigger] lv[j].price_in_cents >= 0,
                subset_price(lv) <= i32::MAX as int,
                m_rem as nat == (mask as nat) / vstd::arithmetic::power2::pow2(i as nat),
                selected_listings.deep_view() == mask_subset_prefix(lv, mask as nat, i as int),
                total_price as int == subset_price(selected_listings.deep_view()),
                0 <= total_price,
            decreases n - i,
        {
            let ghost prefix = selected_listings.deep_view();
            proof {
                vstd::arithmetic::power2::lemma_pow2_pos(i as nat);
            }
            if m_rem % 2 == 1 {
                let ghost prev_vec = selected_listings@;
                let cl = listings[i].clone();
                selected_listings.push(cl);
                proof {
                    assert(bit_set(mask as nat, i as nat));
                    assert(prev_vec.len() == prefix.len());
                    assert(selected_listings@ == prev_vec.push(cl));
                    assert forall|k: int| 0 <= k < prefix.len() + 1
                        implies selected_listings.deep_view()[k] == (prefix + seq![
                            lv[i as int],
                        ])[k] by {
                        if k < prefix.len() {
                            assert(selected_listings@[k] == prev_vec[k]);
                            assert(prefix[k] == prev_vec[k].deep_view());
                        } else {
                            assert(selected_listings@[k] == cl);
                            assert(cl@ == lv[i as int]);
                        }
                    }
                    assert(selected_listings.deep_view() =~= prefix + seq![lv[i as int]]);
                    assert(mask_subset_prefix(lv, mask as nat, i + 1) == prefix + seq![
                        lv[i as int],
                    ]);
                    assert((prefix + seq![lv[i as int]]).drop_last() =~= prefix);
                    assert((prefix + seq![lv[i as int]]).last() == lv[i as int]);
                    assert(subset_price(prefix + seq![lv[i as int]]) == subset_price(prefix)
                        + lv[i as int].price_in_cents);
                    lemma_mask_prefix_price_bound(lv, mask as nat, i + 1);
                    lemma_take_price_bound(lv, i + 1);
                    assert(lv[i as int].price_in_cents >= 0);
                }
                total_price = total_price + listings[i].price_in_cents;
            } else {
                proof {
                    assert(!bit_set(mask as nat, i as nat));
                    assert(selected_listings.deep_view() =~= mask_subset_prefix(
                        lv,
                        mask as nat,
                        i + 1,
                    ));
                }
            }
            m_rem = m_rem / 2;
            proof {
                vstd::arithmetic::power2::lemma_pow2_pos(i as nat);
                vstd::arithmetic::div_mod::lemma_div_denominator(
                    mask as int,
                    vstd::arithmetic::power2::pow2(i as nat) as int,
                    2,
                );
                vstd::arithmetic::power2::lemma_pow2_unfold((i + 1) as nat);
            }
            i = i + 1;
        }
        proof {
            assert(selected_listings.deep_view() == mask_subset(lv, mask as nat));
        }

        let feasible = can_fit_all_vehicles(vehicles, selected_listings.as_slice());
        proof {
            assert(feasible == feasible_mask(vehicles@, lv, mask as nat));
        }

        if feasible {
            let replace = match &best {
                None => true,
                Some(b) => total_price < b.total_price_in_cents,
            };
            if replace {
                best = Some(CheapestCombo::from_listings(&selected_listings, total_price));
                proof {
                    best_mask = mask as nat;
                }
            }
        }
        proof {
            assert(best_mask_below(vehicles@, lv, (mask + 1) as nat) == best_mask_below(
                vehicles@,
                lv,
                mask as nat,
            ) || best_mask_below(vehicles@, lv, (mask + 1) as nat) == Some(mask as nat));
        }
        mask = mask + 1;
    }

    proof {
        lemma_best_mask_below_props(vehicles@, lv, vstd::arithmetic::power2::pow2(n as nat));
    }
    best
}


/// The mathematical values of a sequence's elements, elementwise.
pub open spec fn deep_of<T: DeepView>(s: Seq<T>) -> Seq<T::V> {
    s.map_values(|t: T| t.deep_view())
}

/// A `Vec`'s deep view is the elementwise deep view of its elements.
proof fn lemma_vec_deep_of<T: DeepView>(v: &Vec<T>)
    ensures
        v.deep_view() == deep_of(v@),
{
    assert(v.deep_view() =~= deep_of(v@));
}

/// Pushing commutes with taking elementwise mathematical values.
proof fn lemma_deep_of_push<T: DeepView>(s: Seq<T>, x: T)
    ensures
        deep_of(s.push(x)) == deep_of(s).push(x.deep_view()),
{
    assert(deep_of(s.push(x)) =~= deep_of(s).push(x.deep_view()));
}

/// Inserting commutes with taking elementwise mathematical values.
proof fn lemma_deep_of_insert<T: DeepView>(s: Seq<T>, p: int, x: T)
    requires
        0 <= p <= s.len(),
    ensures
        deep_of(s.insert(p, x)) == deep_of(s).insert(p, x.deep_view()),
{
    s.insert_ensures(p, x);
    deep_of(s).insert_ensures(p, x.deep_view());
    assert(deep_of(s.insert(p, x)) =~= deep_of(s).insert(p, x.deep_view()));
}

/// One location's listings: a location identifier together with the catalog's
/// listings at that location, in catalog order.
pub struct LocationGroup {
    pub location_id: String,
    pub listings: Vec<Listing>,
}

/// The mathematical value of a [`LocationGroup`].
#[verifier::ext_equal]
pub ghost struct LocationGroupV {
    pub location_id: Seq<char>,
    pub listings: Seq<ListingV>,
}

impl View for LocationGroup {
    type V = LocationGroupV;

    open spec fn view(&self) -> LocationGroupV {
        LocationGroupV { location_id: self.location_id@, listings: self.listings.deep_view() }
    }
}

impl DeepView for LocationGroup {
    type V = LocationGroupV;

    open spec fn deep_view(&self) -> LocationGroupV {
        self@
    }
}

/// The catalog's listings whose location is `loc`, in catalog order.
pub open spec fn group_of(catalog: Seq<ListingV>, loc: Seq<char>) -> Seq<ListingV>
    decreases catalog.len(),
{
    if catalog.len() == 0 {
        Seq::empty()
    } else {
        group_of(catalog.drop_last(), loc) + if catalog.last().location_id == loc {
            seq![catalog.last()]
        } else {
            Seq::empty()
        }
    }
}

/// The catalog's distinct location identifiers, in first-seen order.
pub open spec fn first_seen_locations(catalog: Seq<ListingV>) -> Seq<Seq<char>>
    decreases catalog.len(),
{
    if catalog.len() == 0 {
        Seq::empty()
    } else {
        let prev = first_seen_locations(catalog.drop_last());
        prev + if prev.contains(catalog.last().location_id) {
            Seq::empty()
        } else {
            seq![catalog.last().location_id]
        }
    }
}

/// One group per location in the given order, each holding the catalog's
/// listings at that location.
pub open spec fn groups_for(catalog: Seq<ListingV>, locs: Seq<Seq<char>>) -> Seq<LocationGroupV> {
    locs.map_values(
        |loc: Seq<char>| LocationGroupV { location_id: loc, listings: group_of(catalog, loc) },
    )
}

/// What grouping a catalog yields: one group per distinct location in
/// first-seen order, holding that location's listings in catalog order.
pub open spec fn groups_spec(catalog: Seq<ListingV>) -> Seq<LocationGroupV> {
    groups_for(catalog, first_seen_locations(catalog))
}

/// No location identifier repeats in the first-seen location sequence.
pub proof fn lemma_first_seen_no_duplicates(catalog: Seq<ListingV>)
    ensures
        first_seen_locations(catalog).no_duplicates(),
    decreases catalog.len(),
{
    if catalog.len() > 0 {
        lemma_first_seen_no_duplicates(catalog.drop_last());
    }
}

/// Every first-seen location is the location of some catalog listing.
proof fn lemma_first_seen_member(catalog: Seq<ListingV>, k: int)
    requires
        0 <= k < first_seen_locations(catalog).len(),
    ensures
        exists|j: int|
            0 <= j < catalog.len() && #[trigger] catalog[j].location_id == first_seen_locations(
                catalog,
            )[k],
    decreases catalog.len(),
{
    let fsl = first_seen_locations(catalog);
    let prev = first_seen_locations(catalog.drop_last());
    if k < prev.len() {
        lemma_first_seen_member(catalog.drop_last(), k);
        let j = choose|j: int|
            0 <= j < catalog.drop_last().len() && #[trigger] catalog.drop_last()[j].location_id
                == prev[k];
        assert(catalog[j].location_id == fsl[k]);
    } else {
        assert(catalog[catalog.len() - 1].location_id == fsl[k]);
    }
}

/// Whether some group already carries this location identifier.
fn location_seen(groups: &Vec<LocationGroup>, location_id: &String) -> (r: bool)
    ensures
        r <==> exists|k: int|
            0 <= k < groups.deep_view().len() && #[trigger] groups.deep_view()[k].location_id
                == location_id@,
{
    let n_groups = groups.len();
    let mut g: usize = 0;
    while g < n_groups
        invariant
            0 <= g <= n_groups,
            n_groups == groups@.len(),
            forall|k: int|
                0 <= k < g ==> #[trigger] groups.deep_view()[k].location_id != location_id@,
        decreases n_groups - g,
    {
        if groups[g].location_id == *location_id {
            proof {
                assert(groups.deep_view()[g as int].location_id == location_id@);
            }
            return true;
        }
        g = g + 1;
    }
    false
}

/// Group the catalog's listings by location identifier: one group per
/// distinct location, locations in first-seen order, each group's listings in
/// catalog order.
pub fn group_by_location(listings: &[Listing]) -> (r: Vec<LocationGroup>)
    ensures
        r.deep_view() == groups_spec(listings.deep_view()),
{
    let ghost cv = listings.deep_view();
    let n = listings.len();
    let mut groups: Vec<LocationGroup> = Vec::new();
    let mut i: usize = 0;
    proof {
        assert(cv.take(0) =~= Seq::<ListingV>::empty());
        assert(groups.deep_view() =~= groups_for(cv, first_seen_locations(cv.take(0))));
    }
    while i < n
        invariant
            0 <= i <= n,
            n == listings@.len(),
            cv == listings.deep_view(),
            cv.len() == n as int,
            groups.deep_view() == groups_for(cv, first_seen_locations(cv.take(i as int))),
        decreases n - i,
    {
        let ghost locs = first_seen_locations(cv.take(i as int));
        proof {
            assert(cv.take(i + 1).drop_last() =~= cv.take(i as int));
            assert(cv.take(i + 1).last() == cv[i as int]);
            assert(groups.deep_view().len() == locs.len());
            assert(groups@.len() == locs.len());
        }
        let found = location_seen(&groups, &listings[i].location_id);
        if found {
            proof {
                let k = choose|k: int|
                    0 <= k < groups.deep_view().len() && #[trigger] groups.deep_view()[k]
                        .location_id == cv[i as int].location_id;
                assert(locs[k] == cv[i as int].location_id);
                assert(locs.contains(cv[i as int].location_id));
                assert(first_seen_locations(cv.take(i + 1)) =~= locs);
            }
        } else {
            proof {
                assert forall|k: int| 0 <= k < locs.len()
                    implies #[trigger] locs[k] != cv[i as int].location_id by {
                    assert(groups.deep_view()[k].location_id == locs[k]);
                }
                assert(!locs.contains(cv[i as int].location_id));
                assert(first_seen_locations(cv.take(i + 1)) =~= locs.push(
                    cv[i as int].location_id,
                ));
            }
            let ghost loc_new = cv[i as int].location_id;
            let mut member_listings: Vec<Listing> = Vec::new();
            let mut j: usize = 0;
            proof {
                assert(cv.take(0) =~= Seq::<ListingV>::empty());
                assert(member_listings.deep_view() =~= group_of(cv.take(0), loc_new));
            }
            while j < n
                invariant
                    0 <= j <= n,
                    0 <= i < n,
                    n == listings@.len(),
                    cv == listings.deep_view(),
                    cv.len() == n as int,
                    loc_new == cv[i as int].location_id,
                    member_listings.deep_view() == group_of(cv.take(j as int), loc_new),
                decreases n - j,
            {
                proof {
                    assert(cv.take(j + 1).drop_last() =~= cv.take(j as int));
                    assert(cv.take(j + 1).last() == cv[j as int]);
                }
                if listings[j].location_id == listings[i].location_id {
                    let ghost prev_vec = member_listings@;
                    let ghost prev_deep = member_listings.deep_view();
                    let cl = listings[j].clone();
                    member_listings.push(cl);
                    proof {
                        lemma_vec_deep_of(&member_listings);
                        assert(member_listings@ == prev_vec.push(cl));
                        lemma_deep_of_push(prev_vec, cl);
                        assert(deep_of(prev_vec) =~= prev_deep);
                        assert(member_listings.deep_view() =~= prev_deep.push(cv[j as int]));
                        assert(member_listings.deep_view() =~= group_of(cv.take(j + 1), loc_new));
                    }
                } else {
                    proof {
                        assert(member_listings.deep_view() =~= group_of(cv.take(j + 1), loc_new));
                    }
                }
                j = j + 1;
            }
            proof {
                assert(cv.take(n as int) =~= cv);
            }
            let ghost prev_groups_vec = groups@;
            let ghost prev_groups_deep = groups.deep_view();
            let new_group = LocationGroup {
                location_id: listings[i].location_id.clone(),
                listings: member_listings,
            };
            groups.push(new_group);
            proof {
                lemma_vec_deep_of(&groups);
                lemma_deep_of_push(prev_groups_vec, new_group);
                assert(deep_of(prev_groups_vec) =~= prev_groups_deep);
                assert(new_group.deep_view() == LocationGroupV {
                    location_id: loc_new,
                    listings: group_of(cv, loc_new),
                });
                assert(groups.deep_view() =~= groups_for(
                    cv,
                    first_seen_locations(cv.take(i + 1)),
                ));
            }
        }
        i = i + 1;
    }
    proof {
        assert(cv.take(n as int) =~= cv);
    }
    groups
}


/// Per-location results before the final sort: for each location, in the
/// given order, the cheapest feasible combination of that location's
/// listings, skipping locations where none is feasible.
pub open spec fn location_results(
    expanded: Seq<i32>,
    catalog: Seq<ListingV>,
    locs: Seq<Seq<char>>,
) -> Seq<PossibleSpaceV>
    decreases locs.len(),
{
    if locs.len() == 0 {
        Seq::empty()
    } else {
        location_results(expanded, catalog, locs.drop_last()) + match cheapest_combo_spec(
            expanded,
            group_of(catalog, locs.last()),
        ) {
            None => Seq::empty(),
            Some(c) => seq![
                PossibleSpaceV {
                    location_id: locs.last(),
                    listing_ids: c.listing_ids,
                    total_price_in_cents: c.total_price_in_cents,
                },
            ],
        }
    }
}

/// Insert a result into a price-sorted result sequence, after every result of
/// the same or lower price: ties keep the earlier result first.
pub open spec fn insert_by_price(x: PossibleSpaceV, s: Seq<PossibleSpaceV>) -> Seq<PossibleSpaceV>
    decreases s.len(),
{
    if s.len() == 0 {
        seq![x]
    } else if s[0].total_price_in_cents <= x.total_price_in_cents {
        seq![s[0]] + insert_by_price(x, s.drop_first())
    } else {
        seq![x] + s
    }
}

/// The results rearranged ascending by total price, by stable insertion:
/// results of equal price keep their relative order.
pub open spec fn sort_by_price(s: Seq<PossibleSpaceV>) -> Seq<PossibleSpaceV>
    decreases s.len(),
{
    if s.len() == 0 {
        Seq::empty()
    } else {
        insert_by_price(s.last(), sort_by_price(s.drop_last()))
    }
}

/// The results are ordered ascending by total price.
pub open spec fn sorted_by_price(s: Seq<PossibleSpaceV>) -> bool {
    forall|a: int, b: int|
        0 <= a <= b < s.len() ==> #[trigger] s[a].total_price_in_cents
            <= #[trigger] s[b].total_price_in_cents
}

/// No two results share a location identifier.
pub open spec fn distinct_locations(s: Seq<PossibleSpaceV>) -> bool {
    forall|a: int, b: int|
        0 <= a < b < s.len() ==> #[trigger] s[a].location_id != #[trigger] s[b].location_id
}

/// Everything the search returns for a request and a catalog: expand the
/// vehicles; when none are requested the result is empty; otherwise the
/// per-location cheapest combinations, sorted ascending by total price.
pub open spec fn search_spec(vehicles: Seq<Vehicle>, catalog: Seq<ListingV>) -> Seq<
    PossibleSpaceV,
> {
    let expanded = expand_spec(vehicles);
    if expanded.len() == 0 {
        Seq::empty()
    } else {
        sort_by_price(location_results(expanded, catalog, first_seen_locations(catalog)))
    }
}

/// Inserting at the position where every earlier result costs at most `x` and
/// the result there, if any, costs more, is what `insert_by_price` does.
proof fn lemma_insert_by_price_at(x: PossibleSpaceV, s: Seq<PossibleSpaceV>, p: int)
    requires
        0 <= p <= s.len(),
        forall|j: int| 0 <= j < p ==> #[trigger] s[j].total_price_in_cents
            <= x.total_price_in_cents,
        p < s.len() ==> s[p].total_price_in_cents > x.total_price_in_cents,
    ensures
        insert_by_price(x, s) == s.insert(p, x),
    decreases p,
{
    if p == 0 {
        if s.len() == 0 {
            assert(insert_by_price(x, s) =~= s.insert(0, x));
        } else {
            assert(insert_by_price(x, s) =~= s.insert(0, x));
        }
    } else {
        assert(s[0].total_price_in_cents <= x.total_price_in_cents);
        lemma_insert_by_price_at(x, s.drop_first(), p - 1);
        assert(seq![s[0]] + s.drop_first().insert(p - 1, x) =~= s.insert(p, x));
    }
}

/// Every listing of a location's group is a listing of the catalog.
proof fn lemma_group_of_elements(catalog: Seq<ListingV>, loc: Seq<char>)
    ensures
        forall|k: int|
            0 <= k < group_of(catalog, loc).len() ==> catalog.contains(
                #[trigger] group_of(catalog, loc)[k],
            ),
    decreases catalog.len(),
{
    if catalog.len() > 0 {
        lemma_group_of_elements(catalog.drop_last(), loc);
        assert forall|k: int| 0 <= k < group_of(catalog, loc).len()
            implies catalog.contains(#[trigger] group_of(catalog, loc)[k]) by {
            let prev = group_of(catalog.drop_last(), loc);
            if k < prev.len() {
                assert(catalog.drop_last().contains(prev[k]));
                let w = choose|w: int|
                    0 <= w < catalog.drop_last().len() && catalog.drop_last()[w] == prev[k];
                assert(catalog[w] == prev[k]);
            } else {
                assert(group_of(catalog, loc)[k] == catalog.last());
            }
        }
    }
}

/// Every expanded unit length is positive when every requested length is.
proof fn lemma_expand_positive(vehicles: Seq<Vehicle>)
    requires
        forall|i: int| 0 <= i < vehicles.len() ==> #[trigger] vehicles[i].length > 0,
    ensures
        forall|k: int| 0 <= k < expand_spec(vehicles).len() ==> #[trigger] expand_spec(
            vehicles,
        )[k] > 0,
    decreases vehicles.len(),
{
    if vehicles.len() > 0 {
        assert forall|i: int| 0 <= i < vehicles.drop_last().len()
            implies #[trigger] vehicles.drop_last()[i].length > 0 by {
            assert(vehicles[i].length > 0);
        }
        lemma_expand_positive(vehicles.drop_last());
        assert(vehicles.last().length > 0);
        let prev = expand_spec(vehicles.drop_last());
        assert forall|k: int| 0 <= k < expand_spec(vehicles).len()
            implies #[trigger] expand_spec(vehicles)[k] > 0 by {
            if k < prev.len() {
                assert(prev[k] > 0);
            } else {
                assert(expand_spec(vehicles)[k] == repeat_length(vehicles.last())[k - prev.len()]);
            }
        }
    }
}

/// The per-location results carry pairwise distinct locations, each drawn
/// from the given location sequence, when that sequence has no duplicates.
proof fn lemma_location_results_distinct(
    expanded: Seq<i32>,
    catalog: Seq<ListingV>,
    locs: Seq<Seq<char>>,
)
    requires
        locs.no_duplicates(),
    ensures
        forall|a: int|
            0 <= a < location_results(expanded, catalog, locs).len() ==> locs.contains(
                #[trigger] location_results(expanded, catalog, locs)[a].location_id,
            ),
        distinct_locations(location_results(expanded, catalog, locs)),
    decreases locs.len(),
{
    if locs.len() > 0 {
        assert(locs.drop_last().no_duplicates());
        lemma_location_results_distinct(expanded, catalog, locs.drop_last());
        let prev = location_results(expanded, catalog, locs.drop_last());
        let full = location_results(expanded, catalog, locs);
        assert forall|a: int| 0 <= a < full.len()
            implies locs.contains(#[trigger] full[a].location_id) by {
            if a < prev.len() {
                assert(locs.drop_last().contains(prev[a].location_id));
                let w = choose|w: int|
                    0 <= w < locs.drop_last().len() && locs.drop_last()[w] == prev[a].location_id;
                assert(locs[w] == prev[a].location_id);
            } else {
                assert(full[a].location_id == locs.last());
            }
        }
        assert forall|a: int, b: int| 0 <= a < b < full.len()
            implies #[trigger] full[a].location_id != #[trigger] full[b].location_id by {
            if b < prev.len() {
                assert(prev[a].location_id != prev[b].location_id);
            } else {
                assert(full[b].location_id == locs.last());
                assert(locs.drop_last().contains(prev[a].location_id));
                let w = choose|w: int|
                    0 <= w < locs.drop_last().len() && locs.drop_last()[w] == prev[a].location_id;
                assert(locs[w] == prev[a].location_id);
                assert(locs[locs.len() - 1] == locs.last());
            }
        }
    }
}


/// Rearrange the results ascending by total price with a stable insertion
/// sort: results of equal price keep their relative order.
fn sort_results_by_price(results: Vec<PossibleSpace>) -> (r: Vec<PossibleSpace>)
    requires
        distinct_locations(results.deep_view()),
    ensures
        r.deep_view() == sort_by_price(results.deep_view()),
        sorted_by_price(r.deep_view()),
        distinct_locations(r.deep_view()),
{
    let ghost raw = results.deep_view();
    let mut rest = results;
    let mut sorted: Vec<PossibleSpace> = Vec::new();
    let total = rest.len();
    let mut i: usize = 0;
    proof {
        assert(raw.skip(0) =~= raw);
        assert(raw.take(0) =~= Seq::<PossibleSpaceV>::empty());
        assert(sorted.deep_view() =~= sort_by_price(raw.take(0)));
    }
    while i < total
        invariant
            0 <= i <= total,
            total == raw.len(),
            rest@.len() == total - i,
            rest.deep_view() == raw.skip(i as int),
            sorted.deep_view() == sort_by_price(raw.take(i as int)),
            sorted.deep_view().len() == i as int,
            sorted_by_price(sorted.deep_view()),
            distinct_locations(raw),
            distinct_locations(sorted.deep_view()),
            forall|a: int|
                0 <= a < i ==> exists|b: int|
                    0 <= b < i && #[trigger] sorted.deep_view()[a].location_id == raw[b].location_id,
        decreases total - i,
    {
        let ghost rest_vec = rest@;
        let ghost rest_deep = rest.deep_view();
        let x = rest.remove(0);
        proof {
            assert(x.deep_view() == rest_deep[0]);
            assert(x.deep_view() == raw[i as int]);
            lemma_vec_deep_of(&rest);
            assert forall|k: int| 0 <= k < rest@.len()
                implies deep_of(rest@)[k] == raw.skip(i + 1)[k] by {
                assert(rest@[k] == rest_vec[k + 1]);
                assert(rest_deep[k + 1] == rest_vec[k + 1].deep_view());
            }
            assert(rest.deep_view() =~= raw.skip(i + 1));
        }
        let mut p: usize = 0;
        while p < sorted.len() && sorted[p].total_price_in_cents <= x.total_price_in_cents
            invariant
                0 <= p <= sorted@.len(),
                sorted@.len() == sorted.deep_view().len(),
                forall|j: int|
                    0 <= j < p ==> #[trigger] sorted.deep_view()[j].total_price_in_cents
                        <= x.deep_view().total_price_in_cents,
            decreases sorted@.len() - p,
        {
            p = p + 1;
        }
        let ghost sv = sorted.deep_view();
        let ghost svec = sorted@;
        let ghost xv = x.deep_view();
        sorted.insert(p, x);
        proof {
            lemma_insert_by_price_at(xv, sv, p as int);
            lemma_vec_deep_of(&sorted);
            lemma_deep_of_insert(svec, p as int, x);
            assert(deep_of(svec) =~= sv);
            assert(sorted.deep_view() == sv.insert(p as int, xv));
            assert(raw.take(i + 1).drop_last() =~= raw.take(i as int));
            assert(raw.take(i + 1).last() == raw[i as int]);
            assert(sorted.deep_view() == sort_by_price(raw.take(i + 1)));

            sv.insert_ensures(p as int, xv);
            let nv = sorted.deep_view();
            assert forall|a: int, b: int| 0 <= a <= b < nv.len()
                implies #[trigger] nv[a].total_price_in_cents
                    <= #[trigger] nv[b].total_price_in_cents by {
                let pa = if a < p { sv[a] } else if a == p { xv } else { sv[a - 1] };
                let pb = if b < p { sv[b] } else if b == p { xv } else { sv[b - 1] };
                assert(nv[a] == pa);
                assert(nv[b] == pb);
            }

            assert forall|a: int| 0 <= a < sv.len()
                implies #[trigger] sv[a].location_id != xv.location_id by {
                let b = choose|b: int|
                    0 <= b < i && #[trigger] sv[a].location_id == raw[b].location_id;
                assert(raw[b].location_id != raw[i as int].location_id);
            }
            assert forall|a: int, b: int| 0 <= a < b < nv.len()
                implies #[trigger] nv[a].location_id != #[trigger] nv[b].location_id by {
                let pa = if a < p { sv[a] } else if a == p { xv } else { sv[a - 1] };
                let pb = if b < p { sv[b] } else if b == p { xv } else { sv[b - 1] };
                assert(nv[a] == pa);
                assert(nv[b] == pb);
            }
            assert forall|a: int| 0 <= a < i + 1
                implies exists|b: int|
                    0 <= b < i + 1 && #[trigger] nv[a].location_id == raw[b].location_id by {
                if a == p {
                    assert(nv[a].location_id == raw[i as int].location_id);
                } else {
                    let a0 = if a < p { a } else { a - 1 };
                    let b = choose|b: int|
                        0 <= b < i && #[trigger] sv[a0].location_id == raw[b].location_id;
                    assert(nv[a].location_id == raw[b].location_id);
                }
            }
        }
        i = i + 1;
    }
    proof {
        assert(raw.take(total as int) =~= raw);
    }
    sorted
}

/// Find, for every location in the catalog, the cheapest subset of its
/// listings able to hold all requested vehicles at once: expand the vehicle
/// requests, group the catalog by location, pick the cheapest feasible
/// combination per location, and return the results sorted ascending by
/// total price, at most one per location. An empty request yields an empty
/// result; a location where nothing fits is simply absent.
pub fn search_locations(vehicles: Vec<Vehicle>, listings: &[Listing]) -> (r: Vec<PossibleSpace>)
    requires
        forall|i: int| 0 <= i < vehicles@.len() ==> #[trigger] vehicles@[i].length > 0,
        forall|j: int|
            0 <= j < listings.deep_view().len() ==> #[trigger] listings.deep_view()[j]
                .price_in_cents >= 0,
        forall|j: int|
            0 <= j < listings.deep_view().len() ==> #[trigger] group_of(
                listings.deep_view(),
                listings.deep_view()[j].location_id,
            ).len() < 64,
        forall|j: int|
            0 <= j < listings.deep_view().len() ==> subset_price(
                #[trigger] group_of(listings.deep_view(), listings.deep_view()[j].location_id),
            ) <= i32::MAX as int,
    ensures
        r.deep_view() == search_spec(vehicles@, listings.deep_view()),
        sorted_by_price(r.deep_view()),
        distinct_locations(r.deep_view()),
        expand_spec(vehicles@).len() == 0 ==> r@.len() == 0,
{
    let ghost vs = vehicles@;
    let ghost cv = listings.deep_view();

    let expanded = expand_vehicles(vehicles);
    if expanded.is_empty() {
        let empty_results: Vec<PossibleSpace> = Vec::new();
        proof {
            assert(empty_results.deep_view() =~= search_spec(vs, cv));
        }
        return empty_results;
    }
    proof {
        lemma_expand_positive(vs);
    }

    let grouped = group_by_location(listings);
    let ghost fslv = first_seen_locations(cv);
    let ghost ev = expanded@;
    let mut results: Vec<PossibleSpace> = Vec::new();

    let n_groups = grouped.len();
    let mut g: usize = 0;
    proof {
        assert(fslv.take(0) =~= Seq::<Seq<char>>::empty());
        assert(results.deep_view() =~= location_results(ev, cv, fslv.take(0)));
        assert(grouped.deep_view().len() == grouped@.len());
        assert(groups_for(cv, fslv).len() == fslv.len());
    }
    while g < n_groups
        invariant
            0 <= g <= n_groups,
            cv == listings.deep_view(),
            fslv == first_seen_locations(cv),
            grouped.deep_view() == groups_for(cv, fslv),
            n_groups == grouped@.len(),
            fslv.len() == n_groups as int,
            ev == expanded@,
            forall|k: int| 0 <= k < ev.len() ==> #[trigger] ev[k] > 0,
            forall|j: int| 0 <= j < cv.len() ==> #[trigger] cv[j].price_in_cents >= 0,
            forall|j: int|
                0 <= j < cv.len() ==> #[trigger] group_of(cv, cv[j].location_id).len() < 64,
            forall|j: int|
                0 <= j < cv.len() ==> subset_price(#[trigger] group_of(cv, cv[j].location_id))
                    <= i32::MAX as int,
            results.deep_view() == location_results(ev, cv, fslv.take(g as int)),
        decreases n_groups - g,
    {
        let ghost loc_g = fslv[g as int];
        proof {
            lemma_first_seen_member(cv, g as int);
            let w = choose|j: int|
                0 <= j < cv.len() && #[trigger] cv[j].location_id == loc_g;
            assert(group_of(cv, cv[w].location_id).len() < 64);
            assert(subset_price(group_of(cv, cv[w].location_id)) <= i32::MAX as int);
            lemma_group_of_elements(cv, loc_g);
            assert forall|k: int| 0 <= k < group_of(cv, loc_g).len()
                implies #[trigger] group_of(cv, loc_g)[k].price_in_cents >= 0 by {
                assert(cv.contains(group_of(cv, loc_g)[k]));
                let t = choose|t: int| 0 <= t < cv.len() && cv[t] == group_of(cv, loc_g)[k];
                assert(cv[t].price_in_cents >= 0);
            }
            assert(grouped.deep_view()[g as int].listings == group_of(cv, loc_g));
            assert(grouped@[g as int].deep_view() == grouped.deep_view()[g as int]);
        }
        let group = &grouped[g];
        proof {
            assert(group.listings.deep_view() == group_of(cv, loc_g));
            assert(group.location_id@ == loc_g);
        }

        let group_listings = group.listings.as_slice();
        proof {
            assert(group_listings.deep_view() =~= group.listings.deep_view());
        }
        let combo_opt = find_cheapest_combination(expanded.as_slice(), group_listings);
        proof {
            assert(fslv.take(g + 1).drop_last() =~= fslv.take(g as int));
            assert(fslv.take(g + 1).last() == loc_g);
        }
        let ghost combo_v = cheapest_combo_spec(ev, group_of(cv, loc_g));
        match combo_opt {
            Some(combo) => {
                let space = PossibleSpace {
                    location_id: group.location_id.clone(),
                    listing_ids: combo.listing_ids,
                    total_price_in_cents: combo.total_price_in_cents,
                };
                let ghost prev_vec = results@;
                let ghost prev_deep = results.deep_view();
                results.push(space);
                proof {
                    assert(combo.deep_view() == combo_v->Some_0);
                    assert(space.deep_view() == PossibleSpaceV {
                        location_id: loc_g,
                        listing_ids: combo_v->Some_0.listing_ids,
                        total_price_in_cents: combo_v->Some_0.total_price_in_cents,
                    });
                    lemma_vec_deep_of(&results);
                    lemma_deep_of_push(prev_vec, space);
                    assert(deep_of(prev_vec) =~= prev_deep);
                    assert(results.deep_view() =~= location_results(ev, cv, fslv.take(g + 1)));
                }
            },
            None => {
                proof {
                    assert(results.deep_view() =~= location_results(ev, cv, fslv.take(g + 1)));
                }
            },
        }
        g = g + 1;
    }
    proof {
        assert(fslv.take(n_groups as int) =~= fslv);
        lemma_first_seen_no_duplicates(cv);
        lemma_location_results_distinct(ev, cv, fslv);
    }

    let sorted = sort_results_by_price(results);
    proof {
        assert(sorted.deep_view() == search_spec(vs, cv));
    }
    sorted
}


/// The search is deterministic: its whole result is a function of the request
/// and the catalog alone, so identical inputs always yield the identical,
/// identically ordered result.
pub proof fn lemma_search_deterministic(
    vehicles: Seq<Vehicle>,
    catalog: Seq<ListingV>,
    r1: Seq<PossibleSpaceV>,
    r2: Seq<PossibleSpaceV>,
)
    requires
        r1 == search_spec(vehicles, catalog),
        r2 == search_spec(vehicles, catalog),
    ensures
        r1 == r2,
{
}



} // verus!

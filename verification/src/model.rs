//! Data model of the search engine: vehicle requests, storage listings, the
//! read-only listing catalog handle, result records, and request validation.

use vstd::prelude::*;

verus! {

/// A class of identical requested vehicles: `quantity` vehicles, each of the
/// given `length`. Every vehicle shares the fixed domain-wide width
/// [`Vehicle::WIDTH`].
#[derive(Debug, Clone, Copy, PartialEq, Eq, Structural)]
pub struct Vehicle {
    /// Vehicle length; validation demands a positive multiple of ten.
    pub length: i32,
    /// How many vehicles of this length are requested; validation demands at
    /// least one.
    pub quantity: i32,
}

/// The largest total vehicle quantity a single request may carry.
pub const MAX_TOTAL_QUANTITY: i32 = 5;

impl Vehicle {
    /// The fixed width shared by every vehicle, a domain configuration value.
    pub const WIDTH: i32 = 10;
}

/// Why a request was rejected by validation.
#[derive(Debug, Clone, Copy, PartialEq, Eq, Structural)]
pub enum ValidationError {
    /// A vehicle length was zero or negative.
    LengthNotPositive,
    /// A vehicle length was not a multiple of ten.
    LengthNotMultipleOfTen,
    /// A vehicle quantity was zero or negative.
    QuantityNotPositive,
    /// The request carried no vehicles at all.
    EmptyVehicles,
    /// The quantities summed to more than [`MAX_TOTAL_QUANTITY`].
    TotalQuantityExceedsCap,
}

/// A single vehicle request is well formed: positive length, a multiple of
/// ten, and at least one vehicle.
pub open spec fn valid_vehicle(v: Vehicle) -> bool {
    &&& v.length > 0
    &&& v.length % 10 == 0
    &&& v.quantity >= 1
}

/// The error `Vehicle::validate` reports for an invalid vehicle: the checks
/// run in order length-positive, length-multiple-of-ten, quantity-positive.
pub open spec fn vehicle_error(v: Vehicle) -> ValidationError {
    if v.length <= 0 {
        ValidationError::LengthNotPositive
    } else if v.length % 10 != 0 {
        ValidationError::LengthNotMultipleOfTen
    } else {
        ValidationError::QuantityNotPositive
    }
}

impl Vehicle {
    /// Check one vehicle request against the domain rules.
    pub fn validate(&self) -> (r: Result<(), ValidationError>)
        ensures
            r is Ok <==> valid_vehicle(*self),
            r is Err ==> r->Err_0 == vehicle_error(*self),
    {
        if self.length <= 0 {
            Err(ValidationError::LengthNotPositive)
        } else if self.length % 10 != 0 {
            Err(ValidationError::LengthNotMultipleOfTen)
        } else if self.quantity < 1 {
            Err(ValidationError::QuantityNotPositive)
        } else {
            Ok(())
        }
    }
}

/// Sum of the quantities of a vehicle request sequence, as an unbounded
/// integer.
pub open spec fn total_quantity(s: Seq<Vehicle>) -> int
    decreases s.len(),
{
    if s.len() == 0 {
        0
    } else {
        total_quantity(s.drop_last()) + s.last().quantity
    }
}

/// The error of the first invalid vehicle in the sequence, scanning from the
/// front; `None` when every vehicle is valid.
pub open spec fn first_vehicle_error(s: Seq<Vehicle>) -> Option<ValidationError>
    decreases s.len(),
{
    if s.len() == 0 {
        None
    } else if !valid_vehicle(s[0]) {
        Some(vehicle_error(s[0]))
    } else {
        first_vehicle_error(s.drop_first())
    }
}

/// A whole request is well formed: at least one vehicle, every vehicle valid,
/// and the quantities sum to at most [`MAX_TOTAL_QUANTITY`].
pub open spec fn valid_request(s: Seq<Vehicle>) -> bool {
    &&& s.len() >= 1
    &&& (forall|i: int| 0 <= i < s.len() ==> valid_vehicle(#[trigger] s[i]))
    &&& total_quantity(s) <= MAX_TOTAL_QUANTITY as int
}

/// Exactly what `SearchRequest::validate` returns: the emptiness check runs
/// first, then the per-vehicle checks in order, then the total-quantity cap.
pub open spec fn validate_request_spec(s: Seq<Vehicle>) -> Result<(), ValidationError> {
    if s.len() == 0 {
        Err(ValidationError::EmptyVehicles)
    } else {
        match first_vehicle_error(s) {
            Some(e) => Err(e),
            None => if total_quantity(s) > MAX_TOTAL_QUANTITY as int {
                Err(ValidationError::TotalQuantityExceedsCap)
            } else {
                Ok(())
            },
        }
    }
}

proof fn lemma_first_vehicle_error_step(s: Seq<Vehicle>, i: int)
    requires
        0 <= i < s.len(),
        forall|j: int| 0 <= j < i ==> valid_vehicle(#[trigger] s[j]),
    ensures
        valid_vehicle(s[i]) ==> first_vehicle_error(s) == first_vehicle_error(s.skip(i + 1)),
        !valid_vehicle(s[i]) ==> first_vehicle_error(s) == Some(vehicle_error(s[i])),
    decreases i,
{
    if i == 0 {
        assert(s.skip(0) == s);
        assert(s.skip(1) == s.drop_first());
    } else {
        lemma_first_vehicle_error_step(s.drop_first(), i - 1);
        assert(s.skip(0) == s);
        assert(s.drop_first().skip(i) == s.skip(i + 1));
    }
}

proof fn lemma_first_vehicle_error_none(s: Seq<Vehicle>)
    requires
        forall|j: int| 0 <= j < s.len() ==> valid_vehicle(#[trigger] s[j]),
    ensures
        first_vehicle_error(s) is None,
    decreases s.len(),
{
    if s.len() > 0 {
        lemma_first_vehicle_error_none(s.drop_first());
    }
}

/// Quantities from position `i` on are non-negative, so the total over the
/// whole sequence is at least the total over the prefix before `i`.
proof fn lemma_total_quantity_prefix(s: Seq<Vehicle>, i: int)
    requires
        0 <= i <= s.len(),
        forall|j: int| i <= j < s.len() ==> #[trigger] s[j].quantity >= 0,
    ensures
        total_quantity(s) >= total_quantity(s.take(i)),
    decreases s.len(),
{
    if i < s.len() {
        lemma_total_quantity_prefix(s.drop_last(), i);
        assert(s.drop_last().take(i) == s.take(i));
        assert(forall|j: int| i <= j < s.drop_last().len()
            ==> #[trigger] s.drop_last()[j].quantity >= 0);
    } else {
        assert(s.take(i) == s);
    }
}

/// The body of a search request: the ordered vehicle classes to place.
#[derive(Debug)]
pub struct SearchRequest {
    pub vehicles: Vec<Vehicle>,
}

impl SearchRequest {
    /// Check a whole request: it must name at least one vehicle, every
    /// vehicle must be valid, and the quantities must sum to at most
    /// [`MAX_TOTAL_QUANTITY`].
    pub fn validate(&self) -> (r: Result<(), ValidationError>)
        ensures
            r == validate_request_spec(self.vehicles@),
            r is Ok <==> valid_request(self.vehicles@),
    {
        let s = Ghost(self.vehicles@);
        let n = self.vehicles.len();
        if n == 0 {
            return Err(ValidationError::EmptyVehicles);
        }
        let mut i: usize = 0;
        while i < n
            invariant
                0 <= i <= n,
                n == s@.len(),
                n >= 1,
                s@ == self.vehicles@,
                forall|j: int| 0 <= j < i ==> valid_vehicle(#[trigger] s@[j]),
            decreases n - i,
        {
            let v = self.vehicles[i];
            proof {
                lemma_first_vehicle_error_step(s@, i as int);
            }
            match v.validate() {
                Ok(()) => {},
                Err(e) => {
                    return Err(e);
                },
            }
            i = i + 1;
        }
        proof {
            lemma_first_vehicle_error_none(s@);
            assert(s@.take(0) =~= Seq::<Vehicle>::empty());
        }
        let mut total: i64 = 0;
        i = 0;
        while i < n
            invariant
                0 <= i <= n,
                n == s@.len(),
                n >= 1,
                s@ == self.vehicles@,
                forall|j: int| 0 <= j < n ==> valid_vehicle(#[trigger] s@[j]),
                total as int == total_quantity(s@.take(i as int)),
                total <= MAX_TOTAL_QUANTITY as i64,
            decreases n - i,
        {
            let v = self.vehicles[i];
            proof {
                assert(s@.take(i + 1).drop_last() =~= s@.take(i as int));
                assert(s@.take(i + 1).last() == s@[i as int]);
            }
            total = total + v.quantity as i64;
            if total > MAX_TOTAL_QUANTITY as i64 {
                proof {
                    lemma_first_vehicle_error_none(s@);
                    assert forall|j: int| 0 <= j < s@.len()
                        implies #[trigger] s@[j].quantity >= 0 by {
                        assert(valid_vehicle(s@[j]));
                    }
                    lemma_total_quantity_prefix(s@, i + 1);
                }
                return Err(ValidationError::TotalQuantityExceedsCap);
            }
            i = i + 1;
        }
        proof {
            assert(s@.take(n as int) =~= s@);
        }
        Ok(())
    }
}

/// A rentable storage unit: a unique id, its location, two side dimensions,
/// and a price in the smallest currency unit.
#[derive(Debug)]
pub struct Listing {
    pub id: String,
    pub location_id: String,
    /// One side of the footprint; validation upstream makes it a positive
    /// multiple of ten.
    pub length: i32,
    /// The other side of the footprint, under the same convention.
    pub width: i32,
    /// Price in cents; non-negative for a well-formed catalog.
    pub price_in_cents: i32,
}

/// The mathematical value of a [`Listing`].
pub ghost struct ListingV {
    pub id: Seq<char>,
    pub location_id: Seq<char>,
    pub length: int,
    pub width: int,
    pub price_in_cents: int,
}

impl View for Listing {
    type V = ListingV;

    open spec fn view(&self) -> ListingV {
        ListingV {
            id: self.id@,
            location_id: self.location_id@,
            length: self.length as int,
            width: self.width as int,
            price_in_cents: self.price_in_cents as int,
        }
    }
}

impl DeepView for Listing {
    type V = ListingV;

    open spec fn deep_view(&self) -> ListingV {
        self@
    }
}

impl Clone for Listing {
    /// A clone carries the same mathematical value.
    fn clone(&self) -> (r: Self)
        ensures
            r@ == self@,
    {
        Listing {
            id: self.id.clone(),
            location_id: self.location_id.clone(),
            length: self.length,
            width: self.width,
            price_in_cents: self.price_in_cents,
        }
    }
}

/// The read-only listing catalog handle a search runs against. The caller
/// constructs it once from wherever the catalog is stored and passes it in.
pub struct AllListings {
    listings: Vec<Listing>,
}

impl AllListings {
    /// The catalog's mathematical value: the listings in catalog order.
    pub closed spec fn view_seq(&self) -> Seq<ListingV> {
        self.listings.deep_view()
    }

    /// Wrap an already-loaded catalog.
    pub fn new(listings: Vec<Listing>) -> (r: Self)
        ensures
            r.view_seq() == listings.deep_view(),
    {
        AllListings { listings }
    }

    /// The catalog's listings, in catalog order.
    pub fn inner(&self) -> (r: &Vec<Listing>)
        ensures
            r.deep_view() == self.view_seq(),
    {
        &self.listings
    }
}

/// One search result: a location together with the cheapest feasible set of
/// its listings and that set's total price.
#[derive(Debug)]
pub struct PossibleSpace {
    pub location_id: String,
    /// The chosen listings' ids, in catalog order within the location.
    pub listing_ids: Vec<String>,
    pub total_price_in_cents: i32,
}

/// The mathematical value of a [`PossibleSpace`].
pub ghost struct PossibleSpaceV {
    pub location_id: Seq<char>,
    pub listing_ids: Seq<Seq<char>>,
    pub total_price_in_cents: int,
}

impl View for PossibleSpace {
    type V = PossibleSpaceV;

    open spec fn view(&self) -> PossibleSpaceV {
        PossibleSpaceV {
            location_id: self.location_id@,
            listing_ids: self.listing_ids.deep_view(),
            total_price_in_cents: self.total_price_in_cents as int,
        }
    }
}

impl DeepView for PossibleSpace {
    type V = PossibleSpaceV;

    open spec fn deep_view(&self) -> PossibleSpaceV {
        self@
    }
}


impl vstd::std_specs::convert::FromSpecImpl<SearchRequest> for Vec<Vehicle> {
    open spec fn obeys_from_spec() -> bool {
        true
    }

    open spec fn from_spec(request: SearchRequest) -> Vec<Vehicle> {
        request.vehicles
    }
}

impl From<SearchRequest> for Vec<Vehicle> {
    /// Unwrap a request into its vehicle list.
    fn from(request: SearchRequest) -> (r: Vec<Vehicle>)
        ensures
            r == request.vehicles,
    {
        request.vehicles
    }
}


} // verus!

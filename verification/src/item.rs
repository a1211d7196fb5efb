use vstd::prelude::*;

use crate::sorting::{descending, lemma_descending_total, lemma_sort_pointwise, sort_descending};
use crate::types::{Dimensions, RateInfo, RateInfoModel};

verus! {

/// An item to be shipped. Weight in grams, sides in centimetres.
#[derive(Debug)]
pub struct ShippingItem {
    pub identifier: String,
    pub weight: Option<u32>,
    pub length: Option<u32>,
    pub width: Option<u32>,
    pub height: Option<u32>,
}

/// A side that is not given counts as 0.
pub open spec fn side_or_zero(side: Option<u32>) -> int {
    match side {
        Some(v) => v as int,
        None => 0,
    }
}

/// A side as a list: itself if given, nothing otherwise.
pub open spec fn side_seq(side: Option<u32>) -> Seq<u32> {
    match side {
        Some(v) => seq![v],
        None => Seq::<u32>::empty(),
    }
}

/// The given sides among length, width and height, in that order.
pub open spec fn given_sides(length: Option<u32>, width: Option<u32>, height: Option<u32>) -> Seq<
    u32,
> {
    side_seq(length) + side_seq(width) + side_seq(height)
}

/// The smaller of two optional values; a missing value does not count.
pub open spec fn smaller(a: Option<u32>, b: Option<u32>) -> Option<u32> {
    match (a, b) {
        (Some(x), Some(y)) => Some(if x <= y { x } else { y }),
        (Some(x), None) => Some(x),
        (None, _) => b,
    }
}

/// The larger of two optional values; a missing value does not count.
pub open spec fn larger(a: Option<u32>, b: Option<u32>) -> Option<u32> {
    match (a, b) {
        (Some(x), Some(y)) => Some(if x >= y { x } else { y }),
        (Some(x), None) => Some(x),
        (None, _) => b,
    }
}

impl Dimensions {
    /// The bounds on the sides that are given, in the order length, width, height.
    pub open spec fn given_sides(&self) -> Seq<u32> {
        given_sides(self.length, self.width, self.height)
    }
}

impl ShippingItem {
    /// The sides of the item that are given, in the order length, width, height.
    pub open spec fn sides(&self) -> Seq<u32> {
        given_sides(self.length, self.width, self.height)
    }

    /// length + width + height, missing sides counting as 0.
    pub open spec fn side_sum(&self) -> int {
        side_or_zero(self.length) + side_or_zero(self.width) + side_or_zero(self.height)
    }

    pub open spec fn spec_length_width_height(&self) -> Option<u32> {
        if self.side_sum() == 0 {
            None
        } else {
            Some(self.side_sum() as u32)
        }
    }

    pub open spec fn spec_shortest_side(&self) -> Option<u32> {
        smaller(smaller(self.length, self.width), self.height)
    }

    pub open spec fn spec_longest_side(&self) -> Option<u32> {
        larger(larger(self.length, self.width), self.height)
    }

    /// Shortest plus longest side, as an integer; 0 when no side is given.
    pub open spec fn shortest_plus_longest(&self) -> int {
        match (self.spec_shortest_side(), self.spec_longest_side()) {
            (Some(s), Some(l)) => s + l,
            _ => 0,
        }
    }

    pub open spec fn spec_shortest_longest_side(&self) -> Option<u32> {
        match self.spec_shortest_side() {
            Some(_) => Some(self.shortest_plus_longest() as u32),
            None => None,
        }
    }

    /// The item is within a bound on length + width + height; with a bound,
    /// an item without any size (or of size 0) is not.
    pub open spec fn fits_length_width_height_max(&self, max: Option<u32>) -> bool {
        match max {
            Some(m) => 0 < self.side_sum() <= m,
            None => true,
        }
    }

    /// The item is within a bound on its longest side; with a bound, an item
    /// without any side is not.
    pub open spec fn fits_longest_side_max(&self, max: Option<u32>) -> bool {
        match max {
            Some(m) => match self.spec_longest_side() {
                Some(l) => l <= m,
                None => false,
            },
            None => true,
        }
    }

    /// The item is within a bound on shortest plus longest side; with a bound,
    /// an item without any side is not.
    pub open spec fn fits_shortest_longest_side_max(&self, max: Option<u32>) -> bool {
        match max {
            Some(m) => self.spec_shortest_side() is Some && self.shortest_plus_longest() <= m,
            None => true,
        }
    }

    /// Ranked from the largest down, each side of the item is at most the
    /// bound of the same rank, as far as both are given.
    pub open spec fn fits_max_dimensions(&self, max_dimensions: Option<Dimensions>) -> bool {
        match max_dimensions {
            Some(d) => {
                let item = self.sides().sort_by(descending());
                let bound = d.given_sides().sort_by(descending());
                forall|i: int| 0 <= i < item.len() && i < bound.len() ==> item[i] <= bound[i]
            },
            None => true,
        }
    }

    /// The item is not heavier than the bound; an item without weight is.
    pub open spec fn fits_max_weight(&self, max_weight: Option<u32>) -> bool {
        match (max_weight, self.weight) {
            (Some(m), Some(w)) => w <= m,
            _ => true,
        }
    }

    /// The item meets every limit of the rate class.
    pub open spec fn matches_rate(&self, rate_info: RateInfoModel) -> bool {
        &&& self.fits_max_weight(Some(rate_info.max_weight))
        &&& self.fits_max_dimensions(rate_info.max_dimensions)
        &&& match rate_info.max_dimensions {
            Some(d) => {
                &&& self.fits_length_width_height_max(d.length_width_height_max)
                &&& self.fits_longest_side_max(d.longest_side_max)
                &&& self.fits_shortest_longest_side_max(d.shortest_longest_side_max)
            },
            None => true,
        }
    }

    /// The sums that the check against a rate class computes fit in a `u32`.
    pub open spec fn rate_check_in_range(&self, rate_info: RateInfoModel) -> bool {
        match rate_info.max_dimensions {
            Some(d) => self.fits_max_weight(Some(rate_info.max_weight))
                && self.fits_max_dimensions(rate_info.max_dimensions) ==> {
                &&& d.length_width_height_max is Some ==> self.side_sum() <= u32::MAX
                &&& self.fits_length_width_height_max(d.length_width_height_max)
                    && self.fits_longest_side_max(d.longest_side_max)
                    && d.shortest_longest_side_max is Some ==> self.shortest_plus_longest()
                    <= u32::MAX
            },
            None => true,
        }
    }
}

/// The given sides, in the order length, width, height.
fn collect_sides(length: Option<u32>, width: Option<u32>, height: Option<u32>) -> (sides: Vec<u32>)
    ensures
        sides@ == given_sides(length, width, height),
{
    let mut sides = Vec::new();
    if let Some(l) = length {
        sides.push(l);
    }
    if let Some(w) = width {
        sides.push(w);
    }
    if let Some(h) = height {
        sides.push(h);
    }
    assert(sides@ =~= side_seq(length) + side_seq(width) + side_seq(height));
    sides
}

impl ShippingItem {
    /// Sum of length, width and height; `None` when it is 0.
    pub fn length_width_height(&self) -> (r: Option<u32>)
        requires
            self.side_sum() <= u32::MAX,
        ensures
            r == self.spec_length_width_height(),
    {
        let mut dimension: u32 = 0;
        if let Some(length) = self.length {
            dimension += length;
        }
        if let Some(width) = self.width {
            dimension += width;
        }
        if let Some(height) = self.height {
            dimension += height;
        }
        if dimension == 0 {
            return None;
        }
        Some(dimension)
    }

    /// The shortest of the given sides.
    pub fn shortest_side(&self) -> (r: Option<u32>)
        ensures
            r == self.spec_shortest_side(),
    {
        let mut shortest: Option<u32> = None;
        if let Some(length) = self.length {
            shortest = Some(length);
        }
        if let Some(width) = self.width {
            shortest = match shortest {
                Some(s) if s <= width => Some(s),
                _ => Some(width),
            };
        }
        if let Some(height) = self.height {
            shortest = match shortest {
                Some(s) if s <= height => Some(s),
                _ => Some(height),
            };
        }
        shortest
    }

    /// The longest of the given sides.
    pub fn longest_side(&self) -> (r: Option<u32>)
        ensures
            r == self.spec_longest_side(),
    {
        let mut longest: Option<u32> = None;
        if let Some(length) = self.length {
            longest = Some(length);
        }
        if let Some(width) = self.width {
            longest = match longest {
                Some(l) if l >= width => Some(l),
                _ => Some(width),
            };
        }
        if let Some(height) = self.height {
            longest = match longest {
                Some(l) if l >= height => Some(l),
                _ => Some(height),
            };
        }
        longest
    }

    /// Length of the shortest plus the longest side.
    pub fn shortest_longest_side(&self) -> (r: Option<u32>)
        requires
            self.shortest_plus_longest() <= u32::MAX,
        ensures
            r == self.spec_shortest_longest_side(),
    {
        if let Some(shortest_side) = self.shortest_side() {
            if let Some(longest_side) = self.longest_side() {
                return Some(shortest_side + longest_side);
            }
            return None;
        }
        None
    }

    pub fn is_smaller_or_equal_length_with_height_max(
        &self,
        length_width_height_max: Option<u32>,
    ) -> (r: bool)
        requires
            length_width_height_max is Some ==> self.side_sum() <= u32::MAX,
        ensures
            r == self.fits_length_width_height_max(length_width_height_max),
    {
        if let Some(length_width_height_max) = length_width_height_max {
            if let Some(total) = self.length_width_height() {
                if total <= length_width_height_max {
                    return true;
                }
            }
        } else {
            return true;
        }
        false
    }

    pub fn is_smaller_or_equal_longest_side_max(&self, longest_side_max: Option<u32>) -> (r: bool)
        ensures
            r == self.fits_longest_side_max(longest_side_max),
    {
        if let Some(longest_side_max) = longest_side_max {
            if let Some(longest_side) = self.longest_side() {
                if longest_side <= longest_side_max {
                    return true;
                }
            }
        } else {
            return true;
        }
        false
    }

    pub fn is_smaller_or_equal_shortest_longest_side_max(
        &self,
        shortest_longest_side_max: Option<u32>,
    ) -> (r: bool)
        requires
            shortest_longest_side_max is Some ==> self.shortest_plus_longest() <= u32::MAX,
        ensures
            r == self.fits_shortest_longest_side_max(shortest_longest_side_max),
    {
        if let Some(shortest_longest_side_max) = shortest_longest_side_max {
            if let Some(sum) = self.shortest_longest_side() {
                if sum <= shortest_longest_side_max {
                    return true;
                }
            }
        } else {
            return true;
        }
        false
    }

    pub fn is_smaller_or_equal_max_dimensions(&self, max_dimensions: Option<Dimensions>) -> (r:
        bool)
        ensures
            r == self.fits_max_dimensions(max_dimensions),
    {
        if let Some(d) = max_dimensions {
            let item_dimensions = sort_descending(
                &collect_sides(self.length, self.width, self.height),
            );
            let max_dims = sort_descending(
                &collect_sides(d.length, d.width, d.height),
            );
            let n = if item_dimensions.len() <= max_dims.len() {
                item_dimensions.len()
            } else {
                max_dims.len()
            };
            let mut i: usize = 0;
            while i < n
                invariant
                    item_dimensions@ == self.sides().sort_by(descending()),
                    max_dimensions == Some(d),
                    max_dims@ == d.given_sides().sort_by(descending()),
                    n <= item_dimensions.len(),
                    n <= max_dims.len(),
                    n == item_dimensions.len() || n == max_dims.len(),
                    i <= n,
                    forall|j: int| 0 <= j < i ==> item_dimensions@[j] <= max_dims@[j],
                decreases n - i,
            {
                if item_dimensions[i] > max_dims[i] {
                    assert(!(item_dimensions@[i as int] <= max_dims@[i as int]));
                    return false;
                }
                i = i + 1;
            }
        }
        true
    }

    pub fn is_larger_or_equal_max_weight(&self, max_weight: Option<u32>) -> (r: bool)
        ensures
            r == self.fits_max_weight(max_weight),
    {
        if let Some(max_weight) = max_weight {
            if let Some(weight) = self.weight {
                if weight > max_weight {
                    return false;
                }
            }
        }
        true
    }

    /// Whether the item meets every limit of the rate class.
    pub fn is_rate_match(&self, rate_info: &RateInfo) -> (r: bool)
        requires
            self.rate_check_in_range(rate_info@),
        ensures
            r == self.matches_rate(rate_info@),
    {
        if !self.is_larger_or_equal_max_weight(Some(rate_info.max_weight)) {
            return false;
        }
        if !self.is_smaller_or_equal_max_dimensions(rate_info.max_dimensions) {
            return false;
        }
        if let Some(d) = rate_info.max_dimensions {
            if !self.is_smaller_or_equal_length_with_height_max(d.length_width_height_max) {
                return false;
            }
            if !self.is_smaller_or_equal_longest_side_max(d.longest_side_max) {
                return false;
            }
            if !self.is_smaller_or_equal_shortest_longest_side_max(d.shortest_longest_side_max) {
                return false;
            }
        }
        true
    }
}

// ---------------------------------------------------------------------------
// Laws
// ---------------------------------------------------------------------------

/// `turned` has the sides of `item`, in some order.
pub open spec fn same_sides_turned(item: ShippingItem, turned: ShippingItem) -> bool {
    let (l, w, h) = (item.length, item.width, item.height);
    let t = (turned.length, turned.width, turned.height);
    ||| t == (l, w, h)
    ||| t == (l, h, w)
    ||| t == (w, l, h)
    ||| t == (w, h, l)
    ||| t == (h, l, w)
    ||| t == (h, w, l)
}

proof fn lemma_given_sides_multiset(a: Option<u32>, b: Option<u32>, c: Option<u32>)
    ensures
        given_sides(a, b, c).to_multiset() =~= side_seq(a).to_multiset().add(
            side_seq(b).to_multiset(),
        ).add(side_seq(c).to_multiset()),
{
    vstd::seq_lib::lemma_multiset_commutative(side_seq(a) + side_seq(b), side_seq(c));
    vstd::seq_lib::lemma_multiset_commutative(side_seq(a), side_seq(b));
}

/// Whether an item fits a rate class does not depend on which of its sides
/// is called length, width or height.
#[verifier::spinoff_prover]
#[verifier::rlimit(40)]
pub proof fn lemma_rate_match_ignores_orientation(
    item: ShippingItem,
    turned: ShippingItem,
    rate_info: RateInfoModel,
)
    requires
        same_sides_turned(item, turned),
        turned.weight == item.weight,
    ensures
        turned.matches_rate(rate_info) == item.matches_rate(rate_info),
        turned.rate_check_in_range(rate_info) == item.rate_check_in_range(rate_info),
{
    broadcast use vstd::multiset::group_multiset_axioms;

    assert(turned.side_sum() == item.side_sum());
    assert(turned.spec_shortest_side() == item.spec_shortest_side());
    assert(turned.spec_longest_side() == item.spec_longest_side());
    lemma_given_sides_multiset(item.length, item.width, item.height);
    lemma_given_sides_multiset(turned.length, turned.width, turned.height);
    let ma = side_seq(item.length).to_multiset();
    let mb = side_seq(item.width).to_multiset();
    let mc = side_seq(item.height).to_multiset();
    assert(turned.sides().to_multiset() =~= item.sides().to_multiset()) by {
        assert(ma.add(mb).add(mc) =~= ma.add(mc).add(mb));
        assert(ma.add(mb).add(mc) =~= mb.add(ma).add(mc));
        assert(ma.add(mb).add(mc) =~= mb.add(mc).add(ma));
        assert(ma.add(mb).add(mc) =~= mc.add(ma).add(mb));
        assert(ma.add(mb).add(mc) =~= mc.add(mb).add(ma));
    }
    lemma_descending_total();
    item.sides().lemma_sort_by_ensures(descending());
    turned.sides().lemma_sort_by_ensures(descending());
    vstd::seq_lib::lemma_sorted_unique(
        item.sides().sort_by(descending()),
        turned.sides().sort_by(descending()),
        descending(),
    );
}

/// An item that fits a rate class still fits it when it is lighter.
pub proof fn lemma_rate_match_lighter(
    item: ShippingItem,
    lighter: ShippingItem,
    rate_info: RateInfoModel,
)
    requires
        item.matches_rate(rate_info),
        lighter.length == item.length,
        lighter.width == item.width,
        lighter.height == item.height,
        match (lighter.weight, item.weight) {
            (Some(a), Some(b)) => a <= b,
            (Some(_), None) => false,
            (None, _) => true,
        },
    ensures
        lighter.matches_rate(rate_info),
{
    assert(lighter.sides() == item.sides());
}

impl ShippingItem {
    /// Whether the sums that checking the item against the rate class
    /// computes fit in a `u32`.
    pub fn sums_fit_rate(&self, rate_info: &RateInfo) -> (r: bool)
        ensures
            r == self.rate_check_in_range(rate_info@),
    {
        match rate_info.max_dimensions {
            None => true,
            Some(d) => {
                if !self.is_larger_or_equal_max_weight(Some(rate_info.max_weight))
                    || !self.is_smaller_or_equal_max_dimensions(rate_info.max_dimensions) {
                    return true;
                }
                let mut sum: u64 = 0;
                if let Some(l) = self.length {
                    sum = sum + l as u64;
                }
                if let Some(w) = self.width {
                    sum = sum + w as u64;
                }
                if let Some(h) = self.height {
                    sum = sum + h as u64;
                }
                assert(sum == self.side_sum());
                if d.length_width_height_max.is_some() && sum > u32::MAX as u64 {
                    return false;
                }
                let fits_total = match d.length_width_height_max {
                    Some(m) => 0 < sum && sum <= m as u64,
                    None => true,
                };
                if fits_total && self.is_smaller_or_equal_longest_side_max(d.longest_side_max)
                    && d.shortest_longest_side_max.is_some() {
                    let shortest_plus_longest: u64 = match (self.shortest_side(), self.longest_side()) {
                        (Some(a), Some(b)) => a as u64 + b as u64,
                        _ => 0,
                    };
                    return shortest_plus_longest <= u32::MAX as u64;
                }
                true
            },
        }
    }
}

impl Clone for ShippingItem {
    fn clone(&self) -> (res: Self)
        ensures
            res == *self,
    {
        ShippingItem {
            identifier: self.identifier.clone(),
            weight: self.weight,
            length: self.length,
            width: self.width,
            height: self.height,
        }
    }
}

/// `a` is given exactly when `b` is, and is then not larger.
pub open spec fn no_larger(a: Option<u32>, b: Option<u32>) -> bool {
    match (a, b) {
        (Some(x), Some(y)) => x <= y,
        (None, None) => true,
        _ => false,
    }
}

proof fn lemma_given_sides_no_larger(
    a1: Option<u32>,
    a2: Option<u32>,
    a3: Option<u32>,
    b1: Option<u32>,
    b2: Option<u32>,
    b3: Option<u32>,
)
    requires
        no_larger(a1, b1),
        no_larger(a2, b2),
        no_larger(a3, b3),
    ensures
        given_sides(a1, a2, a3).len() == given_sides(b1, b2, b3).len(),
        forall|i: int|
            0 <= i < given_sides(a1, a2, a3).len() ==> given_sides(a1, a2, a3)[i] <= given_sides(
                b1,
                b2,
                b3,
            )[i],
{
    let x1 = side_seq(a1);
    let x2 = side_seq(a2);
    let x3 = side_seq(a3);
    let y1 = side_seq(b1);
    let y2 = side_seq(b2);
    let y3 = side_seq(b3);
    assert(x1.len() == y1.len() && x2.len() == y2.len() && x3.len() == y3.len());
    assert forall|i: int| 0 <= i < (x1 + x2 + x3).len() implies (x1 + x2 + x3)[i] <= (y1 + y2
        + y3)[i] by {
        if i < x1.len() {
            assert((x1 + x2 + x3)[i] == x1[i] && (y1 + y2 + y3)[i] == y1[i]);
        } else if i < x1.len() + x2.len() {
            assert((x1 + x2 + x3)[i] == x2[i - x1.len()]);
            assert((y1 + y2 + y3)[i] == y2[i - x1.len()]);
        } else {
            assert((x1 + x2 + x3)[i] == x3[i - x1.len() - x2.len()]);
            assert((y1 + y2 + y3)[i] == y3[i - x1.len() - x2.len()]);
        }
    }
}

proof fn lemma_sorted_sides_len(s: Seq<u32>)
    ensures
        s.sort_by(descending()).len() == s.len(),
{
    lemma_descending_total();
    s.lemma_sort_by_ensures(descending());
    s.to_multiset_ensures();
    s.sort_by(descending()).to_multiset_ensures();
}

/// An item that fits size limits still fits them with any of its sides
/// shortened, and still fits larger limits.
pub proof fn lemma_smaller_item_larger_box_still_fits(
    item: ShippingItem,
    smaller: ShippingItem,
    limits: Dimensions,
    larger: Dimensions,
)
    requires
        item.fits_max_dimensions(Some(limits)),
        no_larger(smaller.length, item.length),
        no_larger(smaller.width, item.width),
        no_larger(smaller.height, item.height),
        no_larger(limits.length, larger.length),
        no_larger(limits.width, larger.width),
        no_larger(limits.height, larger.height),
    ensures
        smaller.fits_max_dimensions(Some(larger)),
{
    lemma_given_sides_no_larger(
        smaller.length,
        smaller.width,
        smaller.height,
        item.length,
        item.width,
        item.height,
    );
    lemma_given_sides_no_larger(
        limits.length,
        limits.width,
        limits.height,
        larger.length,
        larger.width,
        larger.height,
    );
    lemma_sort_pointwise(item.sides(), smaller.sides());
    lemma_sort_pointwise(larger.given_sides(), limits.given_sides());
    lemma_sorted_sides_len(item.sides());
    lemma_sorted_sides_len(smaller.sides());
    lemma_sorted_sides_len(limits.given_sides());
    lemma_sorted_sides_len(larger.given_sides());
    let a = item.sides().sort_by(descending());
    let a2 = smaller.sides().sort_by(descending());
    let b = limits.given_sides().sort_by(descending());
    let b2 = larger.given_sides().sort_by(descending());
    assert forall|i: int| 0 <= i < a2.len() && i < b2.len() implies a2[i] <= b2[i] by {
        assert(a2[i] <= a[i]);
        assert(a[i] <= b[i]);
        assert(b[i] <= b2[i]);
    }
}

/// The values that a list of given sides holds.
proof fn lemma_given_sides_contains(a: Option<u32>, b: Option<u32>, c: Option<u32>, x: u32)
    ensures
        given_sides(a, b, c).contains(x) <==> (a == Some(x) || b == Some(x) || c == Some(x)),
{
    let s = given_sides(a, b, c);
    let x1 = side_seq(a);
    let x2 = side_seq(b);
    let x3 = side_seq(c);
    if a == Some(x) {
        assert(s[0] == x);
    } else if b == Some(x) {
        assert(s[x1.len() as int] == x);
    } else if c == Some(x) {
        assert(s[(x1.len() + x2.len()) as int] == x);
    }
    if s.contains(x) {
        let i = choose|i: int| 0 <= i < s.len() && s[i] == x;
        if i < x1.len() {
            assert(s[i] == x1[i]);
        } else if i < x1.len() + x2.len() {
            assert(s[i] == x2[i - x1.len()]);
        } else {
            assert(s[i] == x3[i - x1.len() - x2.len()]);
        }
    }
}

/// `ranked` holds the values of `values`, from the largest down.
pub open spec fn ranks(ranked: Seq<u32>, values: Seq<u32>) -> bool {
    &&& ranked.to_multiset() == values.to_multiset()
    &&& forall|i: int, j: int| 0 <= i < j < ranked.len() ==> ranked[i] >= ranked[j]
}

proof fn lemma_ranks_is_sort(ranked: Seq<u32>, values: Seq<u32>)
    requires
        ranks(ranked, values),
    ensures
        ranked == values.sort_by(descending()),
        ranked.len() == values.len(),
        forall|x: u32| ranked.contains(x) <==> values.contains(x),
{
    lemma_descending_total();
    values.lemma_sort_by_ensures(descending());
    assert forall|i: int, j: int| 0 <= i < j < ranked.len() implies #[trigger] (descending())(
        ranked[i],
        ranked[j],
    ) by {}
    vstd::seq_lib::lemma_sorted_unique(ranked, values.sort_by(descending()), descending());
    ranked.to_multiset_ensures();
    values.to_multiset_ensures();
    assert forall|x: u32| ranked.contains(x) <==> values.contains(x) by {
        assert(ranked.to_multiset().count(x) == values.to_multiset().count(x));
    }
}

/// Ranked from the largest down, the first side of an item is its longest
/// side and the last its shortest.
proof fn lemma_ranked_extremes(item: ShippingItem, ranked: Seq<u32>)
    requires
        ranks(ranked, item.sides()),
    ensures
        ranked.len() == 0 <==> item.spec_longest_side() is None,
        ranked.len() == 0 <==> item.spec_shortest_side() is None,
        ranked.len() > 0 ==> item.spec_longest_side() == Some(ranked[0]),
        ranked.len() > 0 ==> item.spec_shortest_side() == Some(ranked[ranked.len() - 1]),
{
    lemma_ranks_is_sort(ranked, item.sides());
    let (l, w, h) = (item.length, item.width, item.height);
    assert forall|x: u32| ranked.contains(x) <==> (l == Some(x) || w == Some(x) || h == Some(x)) by {
        lemma_given_sides_contains(l, w, h, x);
    }
    if ranked.len() > 0 {
        let n = ranked.len() - 1;
        assert(ranked.contains(ranked[0]));
        assert(ranked.contains(ranked[n]));
        assert forall|x: u32| (l == Some(x) || w == Some(x) || h == Some(x)) implies ranked[n] <= x
            && x <= ranked[0] by {
            assert(ranked.contains(x));
            let j = choose|j: int| 0 <= j < ranked.len() && ranked[j] == x;
            if j > 0 {
                assert(ranked[0] >= ranked[j]);
            }
            if j < n {
                assert(ranked[j] >= ranked[n]);
            }
        }
    } else {
        assert(!(l is Some)) by {
            if let Some(x) = l {
                assert(ranked.contains(x));
            }
        }
        assert(!(w is Some)) by {
            if let Some(x) = w {
                assert(ranked.contains(x));
            }
        }
        assert(!(h is Some)) by {
            if let Some(x) = h {
                assert(ranked.contains(x));
            }
        }
    }
}

/// What it means for an item to fit a rate class, said without the rate
/// checks themselves: given the item's sides and the limit's sides each
/// ranked from the largest down, the item fits exactly when it is not heavier
/// than the class allows and, if the class limits the size, each ranked side
/// is within the limit of the same rank, length + width + height is positive
/// and within its bound, the longest side is within its bound, and the
/// shortest plus the longest side are within theirs (a bound on a side
/// demands that some side be given).
pub proof fn lemma_rate_match_meaning(
    item: ShippingItem,
    rate_info: RateInfoModel,
    ranked: Seq<u32>,
    bound: Seq<u32>,
)
    requires
        ranks(ranked, item.sides()),
        rate_info.max_dimensions matches Some(d) ==> ranks(bound, d.given_sides()),
    ensures
        item.matches_rate(rate_info) <==> {
            &&& item.weight matches Some(w) ==> w <= rate_info.max_weight
            &&& rate_info.max_dimensions matches Some(d) ==> {
                &&& forall|i: int| 0 <= i < ranked.len() && i < bound.len() ==> ranked[i] <= bound[i]
                &&& d.length_width_height_max matches Some(m) ==> 0 < side_or_zero(item.length)
                    + side_or_zero(item.width) + side_or_zero(item.height) <= m
                &&& d.longest_side_max matches Some(m) ==> ranked.len() > 0 && ranked[0] <= m
                &&& d.shortest_longest_side_max matches Some(m) ==> ranked.len() > 0 && ranked[0]
                    + ranked[ranked.len() - 1] <= m
            }
        },
{
    lemma_ranks_is_sort(ranked, item.sides());
    lemma_ranked_extremes(item, ranked);
    if let Some(d) = rate_info.max_dimensions {
        lemma_ranks_is_sort(bound, d.given_sides());
    }
}

} // verus!

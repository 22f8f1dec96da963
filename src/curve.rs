use vstd::prelude::*;
use vstd::arithmetic::div_mod::{lemma_div_is_ordered, lemma_div_multiples_vanish, lemma_div_pos_is_pos};
use vstd::arithmetic::mul::lemma_mul_inequality;

verus! {

/// A structural edit was refused; nothing was changed.
#[derive(Debug, Clone, Copy, PartialEq, Eq)]
pub struct ValidationError;

/// The straight line through `(x0, y0)` and `(x1, y1)` at `x`, rounded toward `y0`.
pub open spec fn interpolate(x0: int, y0: int, x1: int, y1: int, x: int) -> int {
    if y0 <= y1 {
        y0 + (x - x0) * (y1 - y0) / (x1 - x0)
    } else {
        y0 - (x - x0) * (y0 - y1) / (x1 - x0)
    }
}

/// `y0` up to `x0`, `y1` from `x1` on, and the straight line between them.
pub open spec fn ramp(x0: int, y0: int, x1: int, y1: int, x: int) -> int {
    if x <= x0 {
        y0
    } else if x >= x1 {
        y1
    } else {
        interpolate(x0, y0, x1, y1, x)
    }
}

/// Between the two points, the line stays between `y0` and `y1`.
pub proof fn lemma_interpolate_bounds(x0: int, y0: int, x1: int, y1: int, x: int)
    requires
        x0 <= x <= x1,
        x0 < x1,
    ensures
        y0 <= y1 ==> y0 <= interpolate(x0, y0, x1, y1, x) <= y1,
        y0 > y1 ==> y1 <= interpolate(x0, y0, x1, y1, x) <= y0,
        interpolate(x0, y0, x1, y1, x0) == y0,
{
    let dy = if y0 <= y1 { y1 - y0 } else { y0 - y1 };
    let d = x1 - x0;
    lemma_mul_inequality(0, x - x0, dy);
    lemma_mul_inequality(x - x0, d, dy);
    lemma_div_pos_is_pos((x - x0) * dy, d);
    lemma_div_is_ordered((x - x0) * dy, d * dy, d);
    assert(d * dy == dy * d) by (nonlinear_arith);
    lemma_div_multiples_vanish(dy, d);
    assert((x0 - x0) * dy == 0);
}

/// The line moves in one direction only: up when `y0 <= y1`, down otherwise.
pub proof fn lemma_interpolate_monotonic(x0: int, y0: int, x1: int, y1: int, a: int, b: int)
    requires
        x0 <= a <= b <= x1,
        x0 < x1,
    ensures
        y0 <= y1 ==> interpolate(x0, y0, x1, y1, a) <= interpolate(x0, y0, x1, y1, b),
        y0 > y1 ==> interpolate(x0, y0, x1, y1, a) >= interpolate(x0, y0, x1, y1, b),
{
    let dy = if y0 <= y1 { y1 - y0 } else { y0 - y1 };
    lemma_mul_inequality(a - x0, b - x0, dy);
    lemma_div_is_ordered((a - x0) * dy, (b - x0) * dy, x1 - x0);
}

/// The ramp is monotonic, in the direction from `y0` to `y1`.
pub proof fn lemma_ramp_monotonic(x0: int, y0: int, x1: int, y1: int, a: int, b: int)
    requires
        x0 < x1,
        a <= b,
    ensures
        y0 <= y1 ==> ramp(x0, y0, x1, y1, a) <= ramp(x0, y0, x1, y1, b),
        y0 > y1 ==> ramp(x0, y0, x1, y1, a) >= ramp(x0, y0, x1, y1, b),
{
    if x0 < a && a < x1 {
        lemma_interpolate_bounds(x0, y0, x1, y1, a);
        if b < x1 {
            lemma_interpolate_monotonic(x0, y0, x1, y1, a, b);
        }
    } else if x0 < b && b < x1 {
        lemma_interpolate_bounds(x0, y0, x1, y1, b);
    }
}

/// Computes `ramp` on byte-sized points.
fn ramp_exec(x0: u8, y0: u8, x1: u8, y1: u8, x: i32) -> (r: i32)
    ensures
        r == ramp(x0 as int, y0 as int, x1 as int, y1 as int, x as int),
{
    if x <= x0 as i32 {
        y0 as i32
    } else if x >= x1 as i32 {
        y1 as i32
    } else {
        let dx: i32 = x - x0 as i32;
        let d: i32 = x1 as i32 - x0 as i32;
        let dy: i32 = if y0 <= y1 { y1 as i32 - y0 as i32 } else { y0 as i32 - y1 as i32 };
        assert(0 <= dx * dy <= 255 * 255) by (nonlinear_arith)
            requires 0 < dx < 256, 0 <= dy < 256;
        let p: i32 = dx * dy;
        assert(p / d <= p) by (nonlinear_arith)
            requires p >= 0, d >= 1;
        proof { lemma_div_pos_is_pos(p as int, d as int); }
        let q: i32 = p / d;
        if y0 <= y1 {
            y0 as i32 + q
        } else {
            y0 as i32 - q
        }
    }
}

/// Speed as a straight line between two temperature points.
#[derive(Debug, Clone, Copy, PartialEq, Eq)]
pub struct Linear {
    pub min_temp: u8,
    pub min_speed: u8,
    pub max_temp: u8,
    pub max_speed: u8,
}

/// What a `Linear` node outputs for the temperature `t`.
pub open spec fn linear_value(l: Linear, t: int) -> int {
    ramp(l.min_temp as int, l.min_speed as int, l.max_temp as int, l.max_speed as int, t)
}

impl Linear {
    /// The parameters a new `Linear` node starts with.
    pub fn new_default() -> (r: Linear)
        ensures
            r.min_temp < r.max_temp,
    {
        Linear { min_temp: 10, min_speed: 10, max_temp: 70, max_speed: 100 }
    }

    /// The speed for the temperature `t`.
    pub fn value(&self, t: i32) -> (r: i32)
        ensures
            r == linear_value(*self, t as int),
    {
        ramp_exec(self.min_temp, self.min_speed, self.max_temp, self.max_speed, t)
    }
}

/// A `Linear` node gives `min_speed` at and below `min_temp`, `max_speed` at and
/// above `max_temp`, the straight line in between, and is monotonic.
pub proof fn lemma_linear_laws(l: Linear, a: int, b: int)
    requires
        l.min_temp < l.max_temp,
        a <= b,
    ensures
        linear_value(l, l.min_temp as int) == l.min_speed,
        linear_value(l, l.max_temp as int) == l.max_speed,
        a <= l.min_temp ==> linear_value(l, a) == l.min_speed,
        b >= l.max_temp ==> linear_value(l, b) == l.max_speed,
        l.min_temp < a < l.max_temp ==> linear_value(l, a) == interpolate(
            l.min_temp as int,
            l.min_speed as int,
            l.max_temp as int,
            l.max_speed as int,
            a,
        ),
        l.min_speed <= l.max_speed ==> linear_value(l, a) <= linear_value(l, b),
        l.min_speed > l.max_speed ==> linear_value(l, a) >= linear_value(l, b),
{
    lemma_ramp_monotonic(
        l.min_temp as int,
        l.min_speed as int,
        l.max_temp as int,
        l.max_speed as int,
        a,
        b,
    );
}

/// Speed that goes from an idle point to a load point.
#[derive(Debug, Clone, Copy, PartialEq, Eq)]
pub struct Target {
    pub idle_temp: u8,
    pub idle_speed: u8,
    pub load_temp: u8,
    pub load_speed: u8,
}

/// What a `Target` node outputs for the temperature `t`.
pub open spec fn target_value(g: Target, t: int) -> int {
    ramp(g.idle_temp as int, g.idle_speed as int, g.load_temp as int, g.load_speed as int, t)
}

impl Target {
    /// The parameters a new `Target` node starts with.
    pub fn new_default() -> (r: Target)
        ensures
            r.idle_temp < r.load_temp,
    {
        Target { idle_temp: 40, idle_speed: 10, load_temp: 70, load_speed: 100 }
    }

    /// The speed for the temperature `t`.
    pub fn value(&self, t: i32) -> (r: i32)
        ensures
            r == target_value(*self, t as int),
    {
        ramp_exec(self.idle_temp, self.idle_speed, self.load_temp, self.load_speed, t)
    }
}


/// One point of a curve: a temperature and the percent it maps to.
#[derive(Debug, Clone, Copy, PartialEq, Eq)]
pub struct Coord {
    pub temp: u8,
    pub percent: u8,
}

/// Temperatures strictly increase along the sequence.
pub open spec fn coords_sorted(c: Seq<Coord>) -> bool {
    forall|i: int, j: int| 0 <= i < j < c.len() ==> #[trigger] c[i].temp < #[trigger] c[j].temp
}

/// The curve through `c` at `t`: clamped to the first and last points, and
/// the straight line between the two points around `t`.
pub open spec fn curve_value(c: Seq<Coord>, t: int) -> int
    decreases c.len(),
{
    if c.len() == 0 {
        0
    } else if c.len() == 1 || t <= c[0].temp {
        c[0].percent as int
    } else if t < c[1].temp {
        interpolate(c[0].temp as int, c[0].percent as int, c[1].temp as int, c[1].percent as int, t)
    } else {
        curve_value(c.subrange(1, c.len() as int), t)
    }
}

/// Speed given by a user-drawn curve of points.
#[derive(Debug, Clone)]
pub struct Graph {
    pub coords: Vec<Coord>,
}

/// Where one coordinate of a sorted curve sits, its own percent is the value.
pub proof fn lemma_curve_at_coord(c: Seq<Coord>, k: int)
    requires
        coords_sorted(c),
        0 <= k < c.len(),
    ensures
        curve_value(c, c[k].temp as int) == c[k].percent,
    decreases c.len(),
{
    if k > 0 {
        let rest = c.subrange(1, c.len() as int);
        assert(c[0].temp < c[k].temp);
        assert(c[1].temp <= c[k].temp) by {
            if k > 1 {
                assert(c[1].temp < c[k].temp);
            }
        }
        assert(rest[k - 1] == c[k]);
        lemma_curve_at_coord(rest, k - 1);
    }
}

/// In a sorted curve no two coordinates share a temperature.
pub proof fn lemma_sorted_unique_temps(c: Seq<Coord>, i: int, j: int)
    requires
        coords_sorted(c),
        0 <= i < c.len(),
        0 <= j < c.len(),
        i != j,
    ensures
        c[i].temp != c[j].temp,
{
    if i < j {
        assert(c[i].temp < c[j].temp);
    } else {
        assert(c[j].temp < c[i].temp);
    }
}

impl Graph {
    /// The curve is sorted by temperature.
    pub open spec fn wf(&self) -> bool {
        coords_sorted(self.coords@)
    }

    /// A curve without points.
    pub fn new() -> (r: Graph)
        ensures
            r.wf(),
            r.coords@.len() == 0,
    {
        Graph { coords: Vec::new() }
    }

    /// The percent for the temperature `t`; none for a curve without points.
    pub fn value(&self, t: i32) -> (r: Option<i32>)
        ensures
            self.coords@.len() == 0 ==> r is None,
            self.coords@.len() > 0 ==> r == Some(curve_value(self.coords@, t as int) as i32),
    {
        let n = self.coords.len();
        if n == 0 {
            return None;
        }
        let mut i: usize = 0;
        assert(self.coords@.subrange(0, n as int) =~= self.coords@);
        while i < n
            invariant
                n == self.coords@.len(),
                0 <= i < n,
                curve_value(self.coords@, t as int) == curve_value(
                    self.coords@.subrange(i as int, n as int),
                    t as int,
                ),
            decreases n - i,
        {
            let ghost rest = self.coords@.subrange(i as int, n as int);
            let c0 = self.coords[i];
            if i + 1 == n || t <= c0.temp as i32 {
                return Some(c0.percent as i32);
            }
            let c1 = self.coords[i + 1];
            assert(rest[1] == c1);
            if t < c1.temp as i32 {
                return Some(ramp_exec(c0.temp, c0.percent, c1.temp, c1.percent, t));
            }
            assert(rest.subrange(1, rest.len() as int) =~= self.coords@.subrange(
                i + 1,
                n as int,
            ));
            i = i + 1;
        }
        None
    }

    /// Where `temp` would go to keep the curve sorted: the first index whose
    /// temperature is not below it.
    fn position_of(&self, temp: u8) -> (r: usize)
        requires
            self.wf(),
        ensures
            r <= self.coords@.len(),
            forall|k: int| 0 <= k < r ==> #[trigger] self.coords@[k].temp < temp,
            r < self.coords@.len() ==> self.coords@[r as int].temp >= temp,
    {
        let mut i: usize = 0;
        while i < self.coords.len()
            invariant
                i <= self.coords@.len(),
                forall|k: int| 0 <= k < i ==> #[trigger] self.coords@[k].temp < temp,
            decreases self.coords@.len() - i,
        {
            if self.coords[i].temp >= temp {
                return i;
            }
            i = i + 1;
        }
        i
    }

    /// Adds a point; refused when a point with the same temperature exists.
    pub fn add_coord(&mut self, coord: Coord) -> (r: Result<(), ValidationError>)
        requires
            old(self).wf(),
        ensures
            final(self).wf(),
            r is Ok <==> forall|k: int|
                0 <= k < old(self).coords@.len() ==> #[trigger] old(self).coords@[k].temp
                    != coord.temp,
            r is Ok ==> final(self).coords@.len() == old(self).coords@.len() + 1,
            r is Ok ==> forall|x: Coord|
                #[trigger] final(self).coords@.contains(x) <==> old(self).coords@.contains(x) || x
                    == coord,
            r is Err ==> *final(self) == *old(self),
    {
        let i = self.position_of(coord.temp);
        if i < self.coords.len() && self.coords[i].temp == coord.temp {
            return Err(ValidationError);
        }
        let ghost before = self.coords@;
        self.coords.insert(i, coord);
        proof {
            let after = self.coords@;
            assert(after =~= before.insert(i as int, coord));
            assert forall|a: int, b: int| 0 <= a < b < after.len() implies #[trigger] after[a].temp
                < #[trigger] after[b].temp by {
                if b < i {
                } else if a < i && b == i {
                } else if a < i {
                    assert(after[b] == before[b - 1]);
                    assert(before[i as int].temp >= coord.temp);
                    if b - 1 > i {
                        assert(before[i as int].temp < before[b - 1].temp);
                    }
                } else if a == i {
                    assert(after[b] == before[b - 1]);
                    if b - 1 > i {
                        assert(before[i as int].temp < before[b - 1].temp);
                    }
                } else {
                    assert(before[a - 1].temp < before[b - 1].temp);
                }
            }
            assert forall|x: Coord| after.contains(x) <==> before.contains(x) || x == coord by {
                if after.contains(x) {
                    let k = choose|k: int| 0 <= k < after.len() && after[k] == x;
                    if k < i {
                        assert(before[k] == x);
                    } else if k > i {
                        assert(before[k - 1] == x);
                    }
                }
                if before.contains(x) {
                    let k = choose|k: int| 0 <= k < before.len() && before[k] == x;
                    if k < i {
                        assert(after[k] == x);
                    } else {
                        assert(after[k + 1] == x);
                    }
                }
                if x == coord {
                    assert(after[i as int] == x);
                }
            }
        }
        Ok(())
    }
    /// The index of `coord` in the curve, if it is there.
    fn index_of(&self, coord: &Coord) -> (r: Option<usize>)
        ensures
            r is None ==> !self.coords@.contains(*coord),
            r matches Some(p) ==> p < self.coords@.len() && self.coords@[p as int] == *coord,
    {
        let mut i: usize = 0;
        while i < self.coords.len()
            invariant
                i <= self.coords@.len(),
                forall|k: int| 0 <= k < i ==> #[trigger] self.coords@[k] != *coord,
            decreases self.coords@.len() - i,
        {
            let c = self.coords[i];
            if c.temp == coord.temp && c.percent == coord.percent {
                return Some(i);
            }
            i = i + 1;
        }
        None
    }

    /// Removes the point at index `p`.
    fn remove_at(&mut self, p: usize)
        requires
            old(self).wf(),
            p < old(self).coords@.len(),
        ensures
            final(self).wf(),
            final(self).coords@ == old(self).coords@.remove(p as int),
            final(self).coords@.len() == old(self).coords@.len() - 1,
            forall|x: Coord|
                #[trigger] final(self).coords@.contains(x) <==> old(self).coords@.contains(x) && x
                    != old(self).coords@[p as int],
    {
        let ghost before = self.coords@;
        self.coords.remove(p);
        proof {
            let after = self.coords@;
            assert forall|a: int, b: int| 0 <= a < b < after.len() implies #[trigger] after[a].temp
                < #[trigger] after[b].temp by {
                let a0 = if a < p { a } else { a + 1 };
                let b0 = if b < p { b } else { b + 1 };
                assert(after[a] == before[a0]);
                assert(after[b] == before[b0]);
            }
            let gone = before[p as int];
            assert forall|x: Coord| after.contains(x) <==> before.contains(x) && x != gone by {
                if after.contains(x) {
                    let k = choose|k: int| 0 <= k < after.len() && after[k] == x;
                    if k < p {
                        assert(before[k] == x);
                        lemma_sorted_unique_temps(before, k, p as int);
                    } else {
                        assert(before[k + 1] == x);
                        lemma_sorted_unique_temps(before, k + 1, p as int);
                    }
                }
                if before.contains(x) && x != gone {
                    let k = choose|k: int| 0 <= k < before.len() && before[k] == x;
                    if k < p {
                        assert(after[k] == x);
                    } else {
                        assert(after[k - 1] == x);
                    }
                }
            }
        }
    }

    /// Removes a point; a point that is not on the curve leaves it as it is.
    pub fn remove_coord(&mut self, coord: &Coord)
        requires
            old(self).wf(),
        ensures
            final(self).wf(),
            forall|x: Coord|
                #[trigger] final(self).coords@.contains(x) <==> old(self).coords@.contains(x) && x
                    != *coord,
            old(self).coords@.contains(*coord) ==> final(self).coords@.len() == old(
                self,
            ).coords@.len() - 1,
            !old(self).coords@.contains(*coord) ==> *final(self) == *old(self),
    {
        match self.index_of(coord) {
            Some(p) => self.remove_at(p),
            None => {},
        }
    }

    /// Replaces the point `previous` by `new`; refused when `previous` is not
    /// on the curve, or another point already has the temperature of `new`.
    pub fn replace_coord(&mut self, previous: &Coord, new: Coord) -> (r: Result<(), ValidationError>)
        requires
            old(self).wf(),
        ensures
            final(self).wf(),
            r is Ok <==> old(self).coords@.contains(*previous) && forall|k: int|
                0 <= k < old(self).coords@.len() && #[trigger] old(self).coords@[k] != *previous
                    ==> old(self).coords@[k].temp != new.temp,
            r is Ok ==> final(self).coords@.len() == old(self).coords@.len(),
            r is Ok ==> forall|x: Coord|
                #[trigger] final(self).coords@.contains(x) <==> (old(self).coords@.contains(x) && x
                    != *previous) || x == new,
            r is Err ==> *final(self) == *old(self),
    {
        let p = match self.index_of(previous) {
            Some(p) => p,
            None => {
                return Err(ValidationError);
            },
        };
        let j = self.position_of(new.temp);
        if j < self.coords.len() && j != p && self.coords[j].temp == new.temp {
            proof {
                lemma_sorted_unique_temps(self.coords@, j as int, p as int);
            }
            return Err(ValidationError);
        }
        let ghost before = self.coords@;
        proof {
            assert forall|k: int|
                0 <= k < before.len() && #[trigger] before[k] != *previous implies before[k].temp
                != new.temp by {
                if k < j {
                } else if k > j {
                    if j < before.len() {
                        assert(before[j as int].temp < before[k].temp);
                    }
                } else {
                    assert(k != p);
                }
            }
        }
        self.remove_at(p);
        proof {
            assert forall|k: int| 0 <= k < self.coords@.len() implies #[trigger] self.coords@[k].temp
                != new.temp by {
                assert(self.coords@.contains(self.coords@[k]));
                let x = self.coords@[k];
                let m = choose|m: int| 0 <= m < before.len() && before[m] == x;
                assert(before[m] != *previous);
            }
        }
        let added = self.add_coord(new);
        assert(added is Ok);
        Ok(())
    }
    /// Whether the curve is sorted by strictly increasing temperature.
    pub fn is_sorted(&self) -> (r: bool)
        ensures
            r == self.wf(),
    {
        let n = self.coords.len();
        if n == 0 {
            return true;
        }
        let mut i: usize = 1;
        while i < n
            invariant
                n == self.coords@.len(),
                1 <= i <= n,
                coords_sorted(self.coords@.subrange(0, i as int)),
            decreases n - i,
        {
            if self.coords[i - 1].temp >= self.coords[i].temp {
                return false;
            }
            proof {
                let c = self.coords@;
                let p = c.subrange(0, i as int);
                let q = c.subrange(0, i as int + 1);
                assert forall|a: int, b: int| 0 <= a < b < q.len() implies #[trigger] q[a].temp < #[trigger] q[b].temp by {
                    if b < i {
                        assert(p[a] == q[a] && p[b] == q[b]);
                    } else if a < i - 1 {
                        assert(p[a] == q[a] && p[i - 1] == q[i - 1]);
                        assert(p[a].temp < p[i - 1].temp);
                    }
                }
            }
            i = i + 1;
        }
        assert(self.coords@.subrange(0, n as int) =~= self.coords@);
        true
    }
}

} // verus!

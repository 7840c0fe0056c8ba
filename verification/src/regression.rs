//! The estimator: a least-squares line through points `(x, y)`, where `x`
//! is a gap size and `y` the decimal logarithm of how often it was seen.
//!
//! Sums, differences and products are exact. The seven quotients are cut
//! by `bigdecimal`, so each stage that divides is followed by a stage that
//! takes the quotient as an argument and is exact in it.

use vstd::prelude::*;
use vstd::arithmetic::power::{lemma_pow0, lemma_pow_positive};
use crate::decimal::{
    Decimal, DecimalView, lemma_minus_aligned, lemma_plus_aligned, lemma_same_value_at,
    lemma_times_aligned, max_scale, opt_view, pow10, same_value,
};

verus! {

/// One point of the fit.
#[derive(Clone, Debug)]
pub struct Point {
    /// The gap size.
    pub x: u64,
    /// The decimal logarithm of the number of times the gap was seen.
    pub y: Decimal,
}

/// The gap size of a point as a decimal.
pub open spec fn x_of(p: Point) -> DecimalView {
    DecimalView::whole(p.x as int)
}

/// The product of two decimals of which either may be missing.
pub open spec fn lift_times(a: Option<DecimalView>, b: Option<DecimalView>) -> Option<
    DecimalView,
> {
    match (a, b) {
        (Some(a), Some(b)) => a.checked_times(b),
        _ => None,
    }
}

/// The sum of two decimals of which either may be missing.
pub open spec fn lift_plus(a: Option<DecimalView>, b: Option<DecimalView>) -> Option<
    DecimalView,
> {
    match (a, b) {
        (Some(a), Some(b)) => a.checked_plus(b),
        _ => None,
    }
}

/// The difference of two decimals of which either may be missing.
pub open spec fn lift_minus(a: Option<DecimalView>, b: Option<DecimalView>) -> Option<
    DecimalView,
> {
    match (a, b) {
        (Some(a), Some(b)) => a.checked_minus(b),
        _ => None,
    }
}

/// The quotient of two decimals of which either may be missing.
pub open spec fn lift_over(a: Option<DecimalView>, b: Option<DecimalView>) -> Option<
    DecimalView,
> {
    match (a, b) {
        (Some(a), Some(b)) => a.checked_over(b),
        _ => None,
    }
}

/// The terms added up from zero, first to last; missing where a term is
/// missing or a sum cannot be formed.
pub open spec fn sum_of(terms: Seq<Option<DecimalView>>) -> Option<DecimalView>
    decreases terms.len(),
{
    if terms.len() == 0 {
        Some(DecimalView::whole(0))
    } else {
        lift_plus(sum_of(terms.drop_last()), terms.last())
    }
}

/// Adding up one term more.
pub proof fn lemma_sum_step(terms: Seq<Option<DecimalView>>, i: int)
    requires
        0 <= i < terms.len(),
    ensures
        sum_of(terms.take(i + 1)) == lift_plus(sum_of(terms.take(i)), terms[i]),
{
    assert(terms.take(i + 1).drop_last() =~= terms.take(i));
}

/// The five sums of the first pass.
#[derive(Debug)]
pub struct Moments {
    /// The number of points.
    pub count: u64,
    /// The sum of `x`.
    pub x: Decimal,
    /// The sum of `y`.
    pub y: Decimal,
    /// The sum of `x * x`.
    pub xx: Decimal,
    /// The sum of `x * y`.
    pub xy: Decimal,
    /// The sum of `y * y`.
    pub yy: Decimal,
}

/// The five sums as mathematical values.
pub struct MomentsView {
    pub count: nat,
    pub x: DecimalView,
    pub y: DecimalView,
    pub xx: DecimalView,
    pub xy: DecimalView,
    pub yy: DecimalView,
}

impl View for Moments {
    type V = MomentsView;

    open spec fn view(&self) -> MomentsView {
        MomentsView {
            count: self.count as nat,
            x: self.x@,
            y: self.y@,
            xx: self.xx@,
            xy: self.xy@,
            yy: self.yy@,
        }
    }
}

/// The `x` of every point.
pub open spec fn x_terms(points: Seq<Point>) -> Seq<Option<DecimalView>> {
    Seq::new(points.len(), |i: int| Some(x_of(points[i])))
}

/// The `y` of every point.
pub open spec fn y_terms(points: Seq<Point>) -> Seq<Option<DecimalView>> {
    Seq::new(points.len(), |i: int| Some(points[i].y@))
}

/// `x * x` of every point.
pub open spec fn xx_terms(points: Seq<Point>) -> Seq<Option<DecimalView>> {
    Seq::new(points.len(), |i: int| x_of(points[i]).checked_times(x_of(points[i])))
}

/// `x * y` of every point.
pub open spec fn xy_terms(points: Seq<Point>) -> Seq<Option<DecimalView>> {
    Seq::new(points.len(), |i: int| x_of(points[i]).checked_times(points[i].y@))
}

/// `y * y` of every point.
pub open spec fn yy_terms(points: Seq<Point>) -> Seq<Option<DecimalView>> {
    Seq::new(points.len(), |i: int| points[i].y@.checked_times(points[i].y@))
}

/// The five sums over `points`, where all of them can be formed.
pub open spec fn moments_of(points: Seq<Point>) -> Option<MomentsView> {
    match (
        sum_of(x_terms(points)),
        sum_of(y_terms(points)),
        sum_of(xx_terms(points)),
        sum_of(xy_terms(points)),
        sum_of(yy_terms(points)),
    ) {
        (Some(x), Some(y), Some(xx), Some(xy), Some(yy)) => Some(
            MomentsView { count: points.len(), x, y, xx, xy, yy },
        ),
        _ => None,
    }
}

/// Adds a term to a running sum, where both are there.
fn add_term(sum: Option<Decimal>, term: &Option<Decimal>) -> (next: Option<Decimal>)
    ensures
        opt_view(next) == lift_plus(opt_view(sum), opt_view(*term)),
{
    match (sum, term) {
        (Some(s), Some(t)) => s.checked_add(t),
        _ => None,
    }
}

/// First pass: the number of points and the sums of `x`, `y`, `x * x`,
/// `x * y` and `y * y`, all exact. `None` where a scale is out of range.
pub fn moments(points: &Vec<Point>) -> (result: Option<Moments>)
    ensures
        match result {
            Some(m) => moments_of(points@) == Some(m@),
            None => moments_of(points@).is_none(),
        },
{
    let mut sx: Option<Decimal> = Some(Decimal::from_u64(0));
    let mut sy: Option<Decimal> = Some(Decimal::from_u64(0));
    let mut sxx: Option<Decimal> = Some(Decimal::from_u64(0));
    let mut sxy: Option<Decimal> = Some(Decimal::from_u64(0));
    let mut syy: Option<Decimal> = Some(Decimal::from_u64(0));
    let mut i: usize = 0;
    while i < points.len()
        invariant
            i <= points@.len(),
            opt_view(sx) == sum_of(x_terms(points@).take(i as int)),
            opt_view(sy) == sum_of(y_terms(points@).take(i as int)),
            opt_view(sxx) == sum_of(xx_terms(points@).take(i as int)),
            opt_view(sxy) == sum_of(xy_terms(points@).take(i as int)),
            opt_view(syy) == sum_of(yy_terms(points@).take(i as int)),
        decreases points@.len() - i,
    {
        let p = &points[i];
        let x = Decimal::from_u64(p.x);
        let xx = x.checked_mul(&x);
        let xy = x.checked_mul(&p.y);
        let yy = p.y.checked_mul(&p.y);
        proof {
            lemma_sum_step(x_terms(points@), i as int);
            lemma_sum_step(y_terms(points@), i as int);
            lemma_sum_step(xx_terms(points@), i as int);
            lemma_sum_step(xy_terms(points@), i as int);
            lemma_sum_step(yy_terms(points@), i as int);
        }
        sy = match sy {
            Some(s) => s.checked_add(&p.y),
            None => None,
        };
        sx = add_term(sx, &Some(x));
        sxx = add_term(sxx, &xx);
        sxy = add_term(sxy, &xy);
        syy = add_term(syy, &yy);
        i += 1;
    }
    proof {
        assert(x_terms(points@).take(i as int) =~= x_terms(points@));
        assert(y_terms(points@).take(i as int) =~= y_terms(points@));
        assert(xx_terms(points@).take(i as int) =~= xx_terms(points@));
        assert(xy_terms(points@).take(i as int) =~= xy_terms(points@));
        assert(yy_terms(points@).take(i as int) =~= yy_terms(points@));
    }
    match (sx, sy, sxx, sxy, syy) {
        (Some(x), Some(y), Some(xx), Some(xy), Some(yy)) => Some(
            Moments { count: points.len() as u64, x, y, xx, xy, yy },
        ),
        _ => None,
    }
}

/// The five means of the first pass.
#[derive(Debug)]
pub struct Means {
    /// The mean of `x`.
    pub x: Decimal,
    /// The mean of `y`.
    pub y: Decimal,
    /// The mean of `x * x`.
    pub xx: Decimal,
    /// The mean of `x * y`.
    pub xy: Decimal,
    /// The mean of `y * y`.
    pub yy: Decimal,
}

/// The five means as mathematical values.
pub struct MeansView {
    pub x: DecimalView,
    pub y: DecimalView,
    pub xx: DecimalView,
    pub xy: DecimalView,
    pub yy: DecimalView,
}

impl View for Means {
    type V = MeansView;

    open spec fn view(&self) -> MeansView {
        MeansView { x: self.x@, y: self.y@, xx: self.xx@, xy: self.xy@, yy: self.yy@ }
    }
}

/// Each sum over the number of points, where all five quotients can be
/// formed.
pub open spec fn means_of(sums: MomentsView) -> Option<MeansView> {
    let n = DecimalView::whole(sums.count as int);
    match (
        sums.x.checked_over(n),
        sums.y.checked_over(n),
        sums.xx.checked_over(n),
        sums.xy.checked_over(n),
        sums.yy.checked_over(n),
    ) {
        (Some(x), Some(y), Some(xx), Some(xy), Some(yy)) => Some(MeansView { x, y, xx, xy, yy }),
        _ => None,
    }
}

/// The means: each sum divided by the number of points. `None` where
/// there is no point or a scale is out of range.
pub fn means(sums: &Moments) -> (result: Option<Means>)
    ensures
        match result {
            Some(m) => means_of(sums@) == Some(m@),
            None => means_of(sums@).is_none(),
        },
{
    let n = Decimal::from_u64(sums.count);
    let x = sums.x.checked_div(&n)?;
    let y = sums.y.checked_div(&n)?;
    let xx = sums.xx.checked_div(&n)?;
    let xy = sums.xy.checked_div(&n)?;
    let yy = sums.yy.checked_div(&n)?;
    Some(Means { x, y, xx, xy, yy })
}

/// The two sums of the second pass.
#[derive(Debug)]
pub struct Deviations {
    /// The sum of `(x - x_mean) * (x - x_mean)`.
    pub xx: Decimal,
    /// The sum of `(x - x_mean) * (y - y_mean)`.
    pub xy: Decimal,
}

/// The two sums of the second pass as mathematical values.
pub struct DeviationsView {
    pub xx: DecimalView,
    pub xy: DecimalView,
}

impl View for Deviations {
    type V = DeviationsView;

    open spec fn view(&self) -> DeviationsView {
        DeviationsView { xx: self.xx@, xy: self.xy@ }
    }
}

/// `(x - x_mean) * (x - x_mean)` of every point.
pub open spec fn dxx_terms(points: Seq<Point>, x_mean: DecimalView) -> Seq<Option<DecimalView>> {
    Seq::new(
        points.len(),
        |i: int|
            lift_times(
                x_of(points[i]).checked_minus(x_mean),
                x_of(points[i]).checked_minus(x_mean),
            ),
    )
}

/// `(x - x_mean) * (y - y_mean)` of every point.
pub open spec fn dxy_terms(points: Seq<Point>, x_mean: DecimalView, y_mean: DecimalView) -> Seq<
    Option<DecimalView>,
> {
    Seq::new(
        points.len(),
        |i: int|
            lift_times(
                x_of(points[i]).checked_minus(x_mean),
                points[i].y@.checked_minus(y_mean),
            ),
    )
}

/// The two sums of the second pass around the given means, where both can
/// be formed.
pub open spec fn deviations_of(
    points: Seq<Point>,
    x_mean: DecimalView,
    y_mean: DecimalView,
) -> Option<DeviationsView> {
    match (sum_of(dxx_terms(points, x_mean)), sum_of(dxy_terms(points, x_mean, y_mean))) {
        (Some(xx), Some(xy)) => Some(DeviationsView { xx, xy }),
        _ => None,
    }
}

/// Multiplies two terms, where both are there.
fn multiply_terms(a: &Option<Decimal>, b: &Option<Decimal>) -> (product: Option<Decimal>)
    ensures
        opt_view(product) == lift_times(opt_view(*a), opt_view(*b)),
{
    match (a, b) {
        (Some(a), Some(b)) => a.checked_mul(b),
        _ => None,
    }
}

/// Second pass: the sums of the squared deviations of `x` and of the
/// products of the deviations of `x` and `y` from the given means, both
/// exact. `None` where a scale is out of range.
pub fn deviations(points: &Vec<Point>, x_mean: &Decimal, y_mean: &Decimal) -> (result: Option<
    Deviations,
>)
    ensures
        match result {
            Some(d) => deviations_of(points@, x_mean@, y_mean@) == Some(d@),
            None => deviations_of(points@, x_mean@, y_mean@).is_none(),
        },
{
    let mut sxx: Option<Decimal> = Some(Decimal::from_u64(0));
    let mut sxy: Option<Decimal> = Some(Decimal::from_u64(0));
    let mut i: usize = 0;
    while i < points.len()
        invariant
            i <= points@.len(),
            opt_view(sxx) == sum_of(dxx_terms(points@, x_mean@).take(i as int)),
            opt_view(sxy) == sum_of(dxy_terms(points@, x_mean@, y_mean@).take(i as int)),
        decreases points@.len() - i,
    {
        let p = &points[i];
        let dx = Decimal::from_u64(p.x).checked_sub(x_mean);
        let dy = p.y.checked_sub(y_mean);
        let dxx = multiply_terms(&dx, &dx);
        let dxy = multiply_terms(&dx, &dy);
        proof {
            lemma_sum_step(dxx_terms(points@, x_mean@), i as int);
            lemma_sum_step(dxy_terms(points@, x_mean@, y_mean@), i as int);
        }
        sxx = add_term(sxx, &dxx);
        sxy = add_term(sxy, &dxy);
        i += 1;
    }
    proof {
        assert(dxx_terms(points@, x_mean@).take(i as int) =~= dxx_terms(points@, x_mean@));
        assert(dxy_terms(points@, x_mean@, y_mean@).take(i as int) =~= dxy_terms(
            points@,
            x_mean@,
            y_mean@,
        ));
    }
    match (sxx, sxy) {
        (Some(xx), Some(xy)) => Some(Deviations { xx, xy }),
        _ => None,
    }
}

/// The intercept of the line with the given slope through the point of
/// the means: `y_mean - slope * x_mean`.
pub open spec fn intercept_of(slope: DecimalView, x_mean: DecimalView, y_mean: DecimalView) -> Option<
    DecimalView,
> {
    lift_minus(Some(y_mean), slope.checked_times(x_mean))
}

/// The intercept of the line with the given slope through the point of
/// the means, exact. `None` where a scale is out of range.
pub fn intercept(slope: &Decimal, x_mean: &Decimal, y_mean: &Decimal) -> (result: Option<Decimal>)
    ensures
        opt_view(result) == intercept_of(slope@, x_mean@, y_mean@),
{
    let rise = slope.checked_mul(x_mean)?;
    y_mean.checked_sub(&rise)
}

/// Numerator and denominator of the coefficient of determination, from
/// the means of `x`, `y`, `x * x`, `x * y` and `y * y`: the squared
/// covariance, and the product of the two variances.
pub open spec fn r_squared_terms_of(m: MeansView) -> Option<(DecimalView, DecimalView)> {
    let covariance = lift_minus(Some(m.xy), m.x.checked_times(m.y));
    let x_variance = lift_minus(Some(m.xx), m.x.checked_times(m.x));
    let y_variance = lift_minus(Some(m.yy), m.y.checked_times(m.y));
    match (lift_times(covariance, covariance), lift_times(x_variance, y_variance)) {
        (Some(numerator), Some(denominator)) => Some((numerator, denominator)),
        _ => None,
    }
}

/// Numerator and denominator of the coefficient of determination, both
/// exact in the means. `None` where a scale is out of range.
pub fn r_squared_terms(m: &Means) -> (result: Option<(Decimal, Decimal)>)
    ensures
        match result {
            Some((numerator, denominator)) => r_squared_terms_of(m@) == Some(
                (numerator@, denominator@),
            ),
            None => r_squared_terms_of(m@).is_none(),
        },
{
    let x_y = m.x.checked_mul(&m.y)?;
    let covariance = m.xy.checked_sub(&x_y)?;
    let numerator = covariance.checked_mul(&covariance)?;
    let x_x = m.x.checked_mul(&m.x)?;
    let x_variance = m.xx.checked_sub(&x_x)?;
    let y_y = m.y.checked_mul(&m.y)?;
    let y_variance = m.yy.checked_sub(&y_y)?;
    let denominator = x_variance.checked_mul(&y_variance)?;
    Some((numerator, denominator))
}

/// The fitted line and how well it fits.
#[derive(Debug)]
pub struct Fit {
    /// The slope of the line.
    pub slope: Decimal,
    /// Where the line meets `x = 0`.
    pub intercept: Decimal,
    /// The coefficient of determination.
    pub r_squared: Decimal,
}

/// The fit as mathematical values.
pub struct FitView {
    pub slope: DecimalView,
    pub intercept: DecimalView,
    pub r_squared: DecimalView,
}

impl View for Fit {
    type V = FitView;

    open spec fn view(&self) -> FitView {
        FitView { slope: self.slope@, intercept: self.intercept@, r_squared: self.r_squared@ }
    }
}

/// The fit of a line to `points` by two passes of least squares, where
/// no divisor is zero and every scale stays in range.
pub open spec fn stats_of(points: Seq<Point>) -> Option<FitView> {
    match moments_of(points) {
        Some(sums) => match means_of(sums) {
            Some(m) => match deviations_of(points, m.x, m.y) {
                Some(d) => match d.xy.checked_over(d.xx) {
                    Some(slope) => match (intercept_of(slope, m.x, m.y), r_squared_terms_of(m)) {
                        (Some(intercept), Some((numerator, denominator))) => match numerator.checked_over(
                            denominator,
                        ) {
                            Some(r_squared) => Some(FitView { slope, intercept, r_squared }),
                            None => None,
                        },
                        _ => None,
                    },
                    None => None,
                },
                None => None,
            },
            None => None,
        },
        None => None,
    }
}

/// Fits a line to `points`, of which there are at least two: slope,
/// intercept and coefficient of determination. `None` where the
/// coefficient would divide by zero, as it does where every `y` is the
/// same, or where a scale leaves the range of the arithmetic.
pub fn stats(points: &Vec<Point>) -> (result: Option<Fit>)
    requires
        points@.len() >= 2,
    ensures
        match result {
            Some(fit) => stats_of(points@) == Some(fit@),
            None => stats_of(points@).is_none(),
        },
{
    let sums = moments(points)?;
    let m = means(&sums)?;
    let d = deviations(points, &m.x, &m.y)?;
    let slope = d.xy.checked_div(&d.xx)?;
    let intercept = intercept(&slope, &m.x, &m.y)?;
    let (numerator, denominator) = r_squared_terms(&m)?;
    let r_squared = numerator.checked_div(&denominator)?;
    Some(Fit { slope, intercept, r_squared })
}

/// The fit depends on nothing but the points: two lists that agree in
/// every `x` and in the value of every `y` have the same sums and the
/// same fit, however the bytes of a `y` are padded.
pub proof fn lemma_stats_is_a_function(a: Seq<Point>, b: Seq<Point>)
    requires
        a.len() == b.len(),
        forall|i: int| 0 <= i < a.len() ==> a[i].x == b[i].x && a[i].y@ == b[i].y@,
    ensures
        moments_of(a) == moments_of(b),
        forall|x_mean: DecimalView, y_mean: DecimalView|
            deviations_of(a, x_mean, y_mean) == deviations_of(b, x_mean, y_mean),
        stats_of(a) == stats_of(b),
{
    assert(x_terms(a) =~= x_terms(b));
    assert(y_terms(a) =~= y_terms(b));
    assert(xx_terms(a) =~= xx_terms(b));
    assert(xy_terms(a) =~= xy_terms(b));
    assert(yy_terms(a) =~= yy_terms(b));
    assert forall|x_mean: DecimalView, y_mean: DecimalView|
        deviations_of(a, x_mean, y_mean) == deviations_of(b, x_mean, y_mean) by {
        assert(dxx_terms(a, x_mean) =~= dxx_terms(b, x_mean));
        assert(dxy_terms(a, x_mean, y_mean) =~= dxy_terms(b, x_mean, y_mean));
    }
}

/// Why a fit takes two points: with fewer, none is defined. Without a
/// point the means divide by zero, and with one point the slope does.
pub proof fn lemma_fewer_than_two_points_no_fit(points: Seq<Point>)
    requires
        points.len() < 2,
    ensures
        stats_of(points).is_none(),
{
    reveal_with_fuel(sum_of, 2);
    lemma_pow0(10);
    if points.len() == 0 {
        assert(x_terms(points) =~= Seq::empty());
    } else {
        let x = x_of(points[0]);
        assert(x_terms(points).drop_last() =~= Seq::empty());
        assert(sum_of(x_terms(points)) == Some(x));
        match moments_of(points) {
            Some(sums) => match means_of(sums) {
                Some(m) => {
                    assert(m.x == x);
                    let terms = dxx_terms(points, m.x);
                    assert(terms.drop_last() =~= Seq::empty());
                    assert(terms[0] == Some(DecimalView::whole(0)));
                    assert(sum_of(terms) == Some(DecimalView::whole(0)));
                },
                None => {},
            },
            None => {},
        }
    }
}

/// A sum of terms that share one scale and are not negative is not
/// negative, and positive as soon as one term is.
pub proof fn lemma_sum_of_nonnegative(terms: Seq<Option<DecimalView>>, scale: int, at: int)
    requires
        sum_of(terms).is_some(),
        0 <= scale,
        0 <= at < terms.len(),
        forall|i: int|
            0 <= i < terms.len() ==> (#[trigger] terms[i]).is_some() && terms[i].unwrap().scale
                == scale && terms[i].unwrap().unscaled >= 0,
    ensures
        sum_of(terms).unwrap().unscaled >= 0,
        0 <= sum_of(terms).unwrap().scale <= scale,
        terms[at].unwrap().unscaled > 0 ==> sum_of(terms).unwrap().unscaled > 0,
    decreases terms.len(),
{
    let shorter = terms.drop_last();
    let last = terms.last().unwrap();
    let before = sum_of(shorter).unwrap();
    if shorter.len() > 0 {
        lemma_sum_of_nonnegative(shorter, scale, if at < shorter.len() { at } else { 0 });
    }
    let lift = pow10(scale - before.scale);
    lemma_pow_positive(10, (scale - before.scale) as nat);
    lemma_pow0(10);
    assert(before.unscaled * lift >= 0) by (nonlinear_arith)
        requires
            before.unscaled >= 0,
            lift > 0,
    ;
    assert(before.unscaled > 0 ==> before.unscaled * lift > 0) by (nonlinear_arith)
        requires
            lift > 0,
    ;
    assert(max_scale(before.scale, scale) == scale);
    assert(last.aligned(scale) == last.unscaled) by {
        assert(pow10(scale - last.scale) == 1);
        assert(last.unscaled * 1 == last.unscaled);
    }
    assert(sum_of(terms) == Some(before.plus(last)));
    assert(before.plus(last).unscaled == before.unscaled * lift + last.unscaled);
}

/// With two different gap sizes among the points, the sum of the squared
/// deviations of `x` is positive whatever the mean is taken to be: the
/// slope never divides by zero.
pub proof fn lemma_spread_is_positive(
    points: Seq<Point>,
    x_mean: DecimalView,
    y_mean: DecimalView,
    i: int,
    j: int,
)
    requires
        0 <= i < points.len(),
        0 <= j < points.len(),
        points[i].x != points[j].x,
        deviations_of(points, x_mean, y_mean).is_some(),
    ensures
        deviations_of(points, x_mean, y_mean).unwrap().xx.unscaled > 0,
{
    let terms = dxx_terms(points, x_mean);
    lemma_sum_is_some(terms, i);
    let scale = max_scale(0, x_mean.scale);
    let lift = pow10(scale);
    let level = x_mean.aligned(scale);
    lemma_pow_positive(10, scale as nat);
    assert forall|k: int| 0 <= k < terms.len() implies (#[trigger] terms[k]).is_some()
        && terms[k].unwrap().scale == 2 * scale && terms[k].unwrap().unscaled >= 0 by {
        lemma_sum_is_some(terms, k);
        let dx = points[k].x * lift - level;
        assert(terms[k].unwrap().unscaled == dx * dx);
        assert(dx * dx >= 0) by (nonlinear_arith);
    }
    let di = points[i].x * lift - level;
    let dj = points[j].x * lift - level;
    assert(points[i].x * lift != points[j].x * lift) by (nonlinear_arith)
        requires
            points[i].x != points[j].x,
            lift > 0,
    ;
    if di != 0 {
        assert(di * di > 0) by (nonlinear_arith)
            requires
                di != 0,
        ;
        assert(terms[i].unwrap().unscaled == di * di);
        lemma_sum_of_nonnegative(terms, 2 * scale, i);
    } else {
        assert(dj * dj > 0) by (nonlinear_arith)
            requires
                dj != 0,
        ;
        assert(terms[j].unwrap().unscaled == dj * dj);
        lemma_sum_of_nonnegative(terms, 2 * scale, j);
    }
}

/// Where a sum can be formed, every term of it is there.
pub proof fn lemma_sum_is_some(terms: Seq<Option<DecimalView>>, at: int)
    requires
        sum_of(terms).is_some(),
        0 <= at < terms.len(),
    ensures
        terms[at].is_some(),
        sum_of(terms.drop_last()).is_some(),
    decreases terms.len(),
{
    if at < terms.len() - 1 {
        lemma_sum_is_some(terms.drop_last(), at);
    }
}

/// `mid` lies exactly halfway between `a` and `b`: twice `mid` has the
/// value of `a` plus `b`.
pub open spec fn is_midpoint(mid: DecimalView, a: DecimalView, b: DecimalView) -> bool {
    same_value(mid.times(DecimalView::whole(2)), a.plus(b))
}

/// Twice the digits of a midpoint are the digits of the two ends
/// together, at any scale that holds all three.
proof fn lemma_midpoint_aligned(mid: DecimalView, a: DecimalView, b: DecimalView, scale: int)
    requires
        is_midpoint(mid, a, b),
        mid.scale <= scale,
        a.scale <= scale,
        b.scale <= scale,
    ensures
        2 * mid.aligned(scale) == a.aligned(scale) + b.aligned(scale),
{
    let two = DecimalView::whole(2);
    lemma_pow0(10);
    assert(two.aligned(0) == 2) by {
        assert(pow10(0 - two.scale) == 1);
    }
    lemma_times_aligned(mid, two, scale, 0);
    lemma_plus_aligned(a, b, scale);
    lemma_same_value_at(mid.times(two), a.plus(b), scale);
    let m = mid.aligned(scale);
    assert(mid.times(two).aligned(scale) == m * 2);
    assert(m * 2 == 2 * m) by (nonlinear_arith);
}

/// The digits of two terms added up from zero are the digits of the two
/// together, at any scale from zero on that holds both.
proof fn lemma_sum_of_two_aligned(terms: Seq<Option<DecimalView>>, scale: int)
    requires
        terms.len() == 2,
        sum_of(terms).is_some(),
        terms[0].is_some(),
        terms[1].is_some(),
        0 <= scale,
        terms[0].unwrap().scale <= scale,
        terms[1].unwrap().scale <= scale,
    ensures
        sum_of(terms).unwrap().scale <= scale,
        sum_of(terms).unwrap().aligned(scale) == terms[0].unwrap().aligned(scale)
            + terms[1].unwrap().aligned(scale),
{
    let zero = DecimalView::whole(0);
    let first = terms[0].unwrap();
    let second = terms[1].unwrap();
    reveal_with_fuel(sum_of, 3);
    assert(terms.drop_last().drop_last() =~= Seq::empty());
    assert(terms.drop_last().last() == terms[0]);
    assert(sum_of(terms.drop_last().drop_last()) == Some(zero));
    assert(sum_of(terms.drop_last()) == lift_plus(Some(zero), terms[0]));
    assert(sum_of(terms) == lift_plus(sum_of(terms.drop_last()), terms[1]));
    assert(sum_of(terms).unwrap() == zero.plus(first).plus(second));
    let p = pow10(scale - zero.scale);
    assert(zero.aligned(scale) == 0) by {
        assert(0 * p == 0) by (nonlinear_arith);
    }
    lemma_plus_aligned(zero, first, scale);
    lemma_plus_aligned(zero.plus(first), second, scale);
}

/// The identity behind the line through two points, on the digits: with
/// deviations that are opposite in `x` and in `y`, the sum of the
/// products times the run is the sum of the squares times the rise.
proof fn lemma_opposite_deviations(a0: int, a1: int, b0: int, b1: int)
    requires
        a0 == -a1,
        b0 == -b1,
    ensures
        (a0 * b0 + a1 * b1) * (2 * a1) == (a0 * a0 + a1 * a1) * (2 * b1),
{
    assert(a0 * b0 == a1 * b1) by (nonlinear_arith)
        requires
            a0 == -a1,
            b0 == -b1,
    ;
    assert(a0 * a0 == a1 * a1) by (nonlinear_arith)
        requires
            a0 == -a1,
    ;
    let ab = a1 * b1;
    let aa = a1 * a1;
    assert((ab + ab) * (2 * a1) == (aa + aa) * (2 * b1)) by (nonlinear_arith)
        requires
            ab == a1 * b1,
            aa == a1 * a1,
    ;
}

/// The line through two points. Where the two means are exactly the
/// midpoint of the two points, the sum of the products of the deviations
/// is to the sum of the squared deviations of `x` exactly as the rise
/// from the first point to the second is to the run: the slope is the
/// quotient, as `bigdecimal` cuts it, of two numbers whose ratio is
/// `(y1 - y0) / (x1 - x0)`.
pub proof fn lemma_two_points_slope(points: Seq<Point>, x_mean: DecimalView, y_mean: DecimalView)
    requires
        points.len() == 2,
        is_midpoint(x_mean, x_of(points[0]), x_of(points[1])),
        is_midpoint(y_mean, points[0].y@, points[1].y@),
        deviations_of(points, x_mean, y_mean).is_some(),
    ensures
        same_value(
            deviations_of(points, x_mean, y_mean).unwrap().xy.times(
                x_of(points[1]).minus(x_of(points[0])),
            ),
            deviations_of(points, x_mean, y_mean).unwrap().xx.times(
                points[1].y@.minus(points[0].y@),
            ),
        ),
{
    let d = deviations_of(points, x_mean, y_mean).unwrap();
    let x0 = x_of(points[0]);
    let x1 = x_of(points[1]);
    let y0 = points[0].y@;
    let y1 = points[1].y@;
    let tx = max_scale(0, x_mean.scale);
    let ty = max_scale(max_scale(0, y_mean.scale), max_scale(y0.scale, y1.scale));
    // the deviations of each point, in digits
    let dx0 = x0.minus(x_mean);
    let dx1 = x1.minus(x_mean);
    let dy0 = y0.minus(y_mean);
    let dy1 = y1.minus(y_mean);
    let a0 = dx0.aligned(tx);
    let a1 = dx1.aligned(tx);
    let b0 = dy0.aligned(ty);
    let b1 = dy1.aligned(ty);
    let run = x1.minus(x0);
    let rise = y1.minus(y0);
    assert(a0 == -a1 && run.scale <= tx && run.aligned(tx) == 2 * a1 && dx0.scale <= tx
        && dx1.scale <= tx) by {
        lemma_midpoint_aligned(x_mean, x0, x1, tx);
        lemma_minus_aligned(x0, x_mean, tx);
        lemma_minus_aligned(x1, x_mean, tx);
        lemma_minus_aligned(x1, x0, tx);
    }
    assert(b0 == -b1 && rise.scale <= ty && rise.aligned(ty) == 2 * b1 && dy0.scale <= ty
        && dy1.scale <= ty) by {
        lemma_midpoint_aligned(y_mean, y0, y1, ty);
        lemma_minus_aligned(y0, y_mean, ty);
        lemma_minus_aligned(y1, y_mean, ty);
        lemma_minus_aligned(y1, y0, ty);
    }
    // the two sums, in digits
    let xx = dxx_terms(points, x_mean);
    let xy = dxy_terms(points, x_mean, y_mean);
    lemma_sum_is_some(xx, 0);
    lemma_sum_is_some(xx, 1);
    lemma_sum_is_some(xy, 0);
    lemma_sum_is_some(xy, 1);
    assert(xx[0] == Some(dx0.times(dx0)));
    assert(xx[1] == Some(dx1.times(dx1)));
    assert(xy[0] == Some(dx0.times(dy0)));
    assert(xy[1] == Some(dx1.times(dy1)));
    lemma_times_aligned(dx0, dx0, tx, tx);
    lemma_times_aligned(dx1, dx1, tx, tx);
    lemma_times_aligned(dx0, dy0, tx, ty);
    lemma_times_aligned(dx1, dy1, tx, ty);
    lemma_sum_of_two_aligned(xx, tx + tx);
    lemma_sum_of_two_aligned(xy, tx + ty);
    assert(d.xx == sum_of(xx).unwrap());
    assert(d.xy == sum_of(xy).unwrap());
    assert(d.xx.aligned(tx + tx) == a0 * a0 + a1 * a1);
    assert(d.xy.aligned(tx + ty) == a0 * b0 + a1 * b1);
    // both sides of the claim, in digits at one scale
    lemma_times_aligned(d.xy, run, tx + ty, tx);
    lemma_times_aligned(d.xx, rise, tx + tx, ty);
    lemma_opposite_deviations(a0, a1, b0, b1);
    assert(d.xy.times(run).aligned(tx + ty + tx) == (a0 * b0 + a1 * b1) * (2 * a1));
    assert(d.xx.times(rise).aligned(tx + tx + ty) == (a0 * a0 + a1 * a1) * (2 * b1));
    lemma_same_value_at(d.xy.times(run), d.xx.times(rise), tx + tx + ty);
}

/// The line meets the point of the means: the intercept and the slope
/// times the mean of `x` add up to the mean of `y`, exactly.
pub proof fn lemma_line_meets_the_means(
    slope: DecimalView,
    x_mean: DecimalView,
    y_mean: DecimalView,
)
    requires
        intercept_of(slope, x_mean, y_mean).is_some(),
    ensures
        same_value(
            intercept_of(slope, x_mean, y_mean).unwrap().plus(slope.times(x_mean)),
            y_mean,
        ),
{
    let rise = slope.times(x_mean);
    let intercept = y_mean.minus(rise);
    let scale = max_scale(y_mean.scale, rise.scale);
    lemma_minus_aligned(y_mean, rise, scale);
    lemma_plus_aligned(intercept, rise, scale);
    lemma_same_value_at(intercept.plus(rise), y_mean, scale);
}

/// The identity behind the coefficient of determination of two points,
/// on the digits: with means that are exact, the squared covariance is
/// the product of the two variances.
proof fn lemma_two_point_moments(
    x0: int,
    x1: int,
    y0: int,
    y1: int,
    mx: int,
    my: int,
    mxx: int,
    mxy: int,
    myy: int,
)
    requires
        2 * mx == x0 + x1,
        2 * my == y0 + y1,
        2 * mxx == x0 * x0 + x1 * x1,
        2 * mxy == x0 * y0 + x1 * y1,
        2 * myy == y0 * y0 + y1 * y1,
    ensures
        (mxy - mx * my) * (mxy - mx * my) == (mxx - mx * mx) * (myy - my * my),
{
    let d = x1 - x0;
    let e = y1 - y0;
    let c = mxy - mx * my;
    let vx = mxx - mx * mx;
    let vy = myy - my * my;
    assert(4 * (mx * my) == x0 * y0 + x0 * y1 + x1 * y0 + x1 * y1) by (nonlinear_arith)
        requires
            2 * mx == x0 + x1,
            2 * my == y0 + y1,
    ;
    assert(4 * (mx * mx) == x0 * x0 + 2 * (x0 * x1) + x1 * x1) by (nonlinear_arith)
        requires
            2 * mx == x0 + x1,
    ;
    assert(4 * (my * my) == y0 * y0 + 2 * (y0 * y1) + y1 * y1) by (nonlinear_arith)
        requires
            2 * my == y0 + y1,
    ;
    assert(d * e == x1 * y1 - x1 * y0 - x0 * y1 + x0 * y0) by (nonlinear_arith)
        requires
            d == x1 - x0,
            e == y1 - y0,
    ;
    assert(d * d == x1 * x1 - 2 * (x0 * x1) + x0 * x0) by (nonlinear_arith)
        requires
            d == x1 - x0,
    ;
    assert(e * e == y1 * y1 - 2 * (y0 * y1) + y0 * y0) by (nonlinear_arith)
        requires
            e == y1 - y0,
    ;
    assert(4 * c == d * e);
    assert(4 * vx == d * d);
    assert(4 * vy == e * e);
    let de = d * e;
    let dd = d * d;
    let ee = e * e;
    assert(de * de == dd * ee) by (nonlinear_arith)
        requires
            de == d * e,
            dd == d * d,
            ee == e * e,
    ;
    assert(16 * (c * c) == de * de) by (nonlinear_arith)
        requires
            4 * c == de,
    ;
    assert(16 * (vx * vy) == dd * ee) by (nonlinear_arith)
        requires
            4 * vx == dd,
            4 * vy == ee,
    ;
}

/// The coefficient of determination of two points. Where the five means
/// are exactly halfway between the values of the two points, the
/// numerator and the denominator of the coefficient stand for the same
/// number: the coefficient is the quotient, as `bigdecimal` cuts it, of a
/// number by itself.
pub proof fn lemma_two_points_determination(points: Seq<Point>, m: MeansView)
    requires
        points.len() == 2,
        is_midpoint(m.x, x_of(points[0]), x_of(points[1])),
        is_midpoint(m.y, points[0].y@, points[1].y@),
        is_midpoint(
            m.xx,
            x_of(points[0]).times(x_of(points[0])),
            x_of(points[1]).times(x_of(points[1])),
        ),
        is_midpoint(m.xy, x_of(points[0]).times(points[0].y@), x_of(points[1]).times(points[1].y@)),
        is_midpoint(m.yy, points[0].y@.times(points[0].y@), points[1].y@.times(points[1].y@)),
        r_squared_terms_of(m).is_some(),
    ensures
        same_value(r_squared_terms_of(m).unwrap().0, r_squared_terms_of(m).unwrap().1),
{
    let x0 = x_of(points[0]);
    let x1 = x_of(points[1]);
    let y0 = points[0].y@;
    let y1 = points[1].y@;
    let sx = max_scale(max_scale(0, m.x.scale), m.xx.scale);
    let sy = max_scale(
        max_scale(max_scale(0, m.y.scale), max_scale(y0.scale, y1.scale)),
        max_scale(m.yy.scale, m.xy.scale),
    );
    let dx0 = x0.aligned(sx);
    let dx1 = x1.aligned(sx);
    let dy0 = y0.aligned(sy);
    let dy1 = y1.aligned(sy);
    let mx = m.x.aligned(sx);
    let my = m.y.aligned(sy);
    let mxx = m.xx.aligned(sx + sx);
    let mxy = m.xy.aligned(sx + sy);
    let myy = m.yy.aligned(sy + sy);
    assert(2 * mx == dx0 + dx1) by {
        lemma_midpoint_aligned(m.x, x0, x1, sx);
    }
    assert(2 * my == dy0 + dy1) by {
        lemma_midpoint_aligned(m.y, y0, y1, sy);
    }
    assert(2 * mxx == dx0 * dx0 + dx1 * dx1) by {
        lemma_times_aligned(x0, x0, sx, sx);
        lemma_times_aligned(x1, x1, sx, sx);
        lemma_midpoint_aligned(m.xx, x0.times(x0), x1.times(x1), sx + sx);
    }
    assert(2 * mxy == dx0 * dy0 + dx1 * dy1) by {
        lemma_times_aligned(x0, y0, sx, sy);
        lemma_times_aligned(x1, y1, sx, sy);
        lemma_midpoint_aligned(m.xy, x0.times(y0), x1.times(y1), sx + sy);
    }
    assert(2 * myy == dy0 * dy0 + dy1 * dy1) by {
        lemma_times_aligned(y0, y0, sy, sy);
        lemma_times_aligned(y1, y1, sy, sy);
        lemma_midpoint_aligned(m.yy, y0.times(y0), y1.times(y1), sy + sy);
    }
    let covariance = m.xy.minus(m.x.times(m.y));
    let x_variance = m.xx.minus(m.x.times(m.x));
    let y_variance = m.yy.minus(m.y.times(m.y));
    let numerator = covariance.times(covariance);
    let denominator = x_variance.times(y_variance);
    assert(r_squared_terms_of(m).unwrap() == (numerator, denominator));
    let c = mxy - mx * my;
    let vx = mxx - mx * mx;
    let vy = myy - my * my;
    assert(covariance.scale <= sx + sy && covariance.aligned(sx + sy) == c) by {
        lemma_times_aligned(m.x, m.y, sx, sy);
        lemma_minus_aligned(m.xy, m.x.times(m.y), sx + sy);
    }
    assert(x_variance.scale <= sx + sx && x_variance.aligned(sx + sx) == vx) by {
        lemma_times_aligned(m.x, m.x, sx, sx);
        lemma_minus_aligned(m.xx, m.x.times(m.x), sx + sx);
    }
    assert(y_variance.scale <= sy + sy && y_variance.aligned(sy + sy) == vy) by {
        lemma_times_aligned(m.y, m.y, sy, sy);
        lemma_minus_aligned(m.yy, m.y.times(m.y), sy + sy);
    }
    lemma_times_aligned(covariance, covariance, sx + sy, sx + sy);
    lemma_times_aligned(x_variance, y_variance, sx + sx, sy + sy);
    lemma_two_point_moments(dx0, dx1, dy0, dy1, mx, my, mxx, mxy, myy);
    assert(numerator.aligned(sx + sy + (sx + sy)) == c * c);
    assert(denominator.aligned(sx + sx + (sy + sy)) == vx * vy);
    lemma_same_value_at(numerator, denominator, sx + sx + (sy + sy));
}

} // verus!

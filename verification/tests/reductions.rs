use ndarray::ArrayBase;
use ndarray::Axis;
use ndarray::Monoid;
use ndarray::Numeric;
use ndarray::Real;

/// `f64` as an element type, through `num_traits`.
#[derive(Clone, Copy, Debug, PartialEq, PartialOrd)]
struct F(f64);

impl Numeric for F {
    fn zero() -> F {
        F(<f64 as num_traits::Zero>::zero())
    }

    fn one() -> F {
        F(<f64 as num_traits::One>::one())
    }

    fn add(self, rhs: F) -> F {
        F(self.0 + rhs.0)
    }

    fn mul(self, rhs: F) -> F {
        F(self.0 * rhs.0)
    }

    fn div(self, rhs: F) -> F {
        F(self.0 / rhs.0)
    }

    fn from_usize(n: usize) -> Option<F> {
        <f64 as num_traits::FromPrimitive>::from_usize(n).map(F)
    }
}

impl Real for F {
    fn sub(self, rhs: F) -> F {
        F(self.0 - rhs.0)
    }

    fn mul_add(self, a: F, b: F) -> F {
        F(num_traits::Float::mul_add(self.0, a.0, b.0))
    }

    fn sqrt(self) -> F {
        F(num_traits::Float::sqrt(self.0))
    }
}

fn floats(shape: &[usize], values: &[f64]) -> ArrayBase<'static, F> {
    ArrayBase::from_shape_vec(shape, values.iter().map(|&x| F(x)).collect()).unwrap()
}

fn plain(a: &ArrayBase<'_, F>) -> Vec<f64> {
    a.to_vec().iter().map(|x| x.0).collect()
}

fn ints(shape: &[usize], values: &[i64]) -> ArrayBase<'static, i64> {
    ArrayBase::from_shape_vec(shape, values.to_vec()).unwrap()
}

#[test]
fn sum_of_a_matrix() {
    let a = floats(&[2, 2], &[1., 2., 3., 4.]);
    assert_eq!(a.sum(), F(10.));
    assert_eq!(a.scalar_sum(), F(10.));
}

#[test]
fn product_of_a_matrix() {
    let a = floats(&[2, 2], &[1., 2., 3., 4.]);
    assert_eq!(a.product(), F(24.));
}

#[test]
fn sum_and_product_of_nothing_are_the_identities() {
    let a = ints(&[0], &[]);
    assert_eq!(a.sum(), 0);
    assert_eq!(a.product(), 1);
    let b = ints(&[3, 0], &[]);
    assert_eq!(b.sum(), 0);
    assert_eq!(b.product(), 1);
}

#[test]
fn sum_of_a_scalar_array() {
    let a = ints(&[], &[7]);
    assert_eq!(a.ndim(), 0);
    assert_eq!(a.len(), 1);
    assert_eq!(a.sum(), 7);
    assert_eq!(a.product(), 7);
}

#[test]
fn sum_over_more_than_one_block_of_eight() {
    let values: Vec<i64> = (1..=20).collect();
    let a = ints(&[20], &values);
    assert_eq!(a.sum(), 210);
    let b = ints(&[4, 5], &values);
    assert_eq!(b.sum(), 210);
    let c = ints(&[16], &values[..16]);
    assert_eq!(c.sum(), 136);
}

#[test]
fn product_over_more_than_one_block_of_eight() {
    let values: Vec<i64> = (1..=10).collect();
    let a = ints(&[10], &values);
    assert_eq!(a.product(), 3628800);
}

#[test]
fn unrolled_fold_takes_every_element_once() {
    for n in 0..40usize {
        let values: Vec<i64> = (0..n as i64).map(|x| 3 * x + 1).collect();
        let expected: i64 = values.iter().sum();
        assert_eq!(ndarray::numeric::unrolled_fold(Monoid::Sum, &values), expected);
    }
    assert_eq!(ndarray::numeric::unrolled_fold(Monoid::Product, &[2i64, 3, 5, 7]), 210);
}

#[test]
fn unrolled_fold_joins_the_stripes_in_pairs() {
    // With sixteen values the eight stripes hold two each; in floating point
    // the order of the additions shows in the last digits.
    let values: Vec<F> = (0..16).map(|i| F(0.1 * (i as f64 + 1.0))).collect();
    let v: Vec<f64> = values.iter().map(|x| x.0).collect();
    let p = |j: usize| (0.0 + v[j]) + v[8 + j];
    let first = 0.0 + (p(0) + p(4));
    let expected = ((first + (p(1) + p(5))) + (p(2) + p(6))) + (p(3) + p(7));
    assert_eq!(ndarray::numeric::unrolled_fold(Monoid::Sum, &values), F(expected));
}

#[test]
fn sum_of_a_view_that_is_not_contiguous() {
    let a = ints(&[3, 4], &[1, 2, 3, 4, 5, 6, 7, 8, 9, 10, 11, 12]);
    let column = a.index_axis(Axis(1), 2);
    assert_eq!(column.to_vec(), vec![3, 7, 11]);
    assert!(column.as_slice_memory_order().is_none());
    assert_eq!(column.sum(), 21);
    assert_eq!(column.product(), 231);
    let left = a.slice_axis(Axis(1), 0, 2);
    assert!(left.as_slice_memory_order().is_none());
    assert_eq!(left.to_vec(), vec![1, 2, 5, 6, 9, 10]);
    assert_eq!(left.sum(), 33);
    let right = a.slice_axis(Axis(1), 1, 3);
    let stripes = right.reversed_axes();
    assert_eq!(stripes.to_vec(), vec![2, 6, 10, 3, 7, 11, 4, 8, 12]);
    assert_eq!(stripes.sum(), 63);
}

#[test]
fn sum_of_a_transposed_matrix() {
    let a = ints(&[2, 3], &[1, 2, 3, 4, 5, 6]);
    let t = a.reversed_axes();
    assert_eq!(t.as_slice_memory_order().unwrap(), &[1, 2, 3, 4, 5, 6]);
    assert_eq!(t.sum(), 21);
}

#[test]
fn mean_of_an_empty_array_is_none() {
    let a = floats(&[0], &[]);
    assert_eq!(a.mean(), None);
    let b = floats(&[2, 0], &[]);
    assert_eq!(b.mean(), None);
}

#[test]
fn mean_of_a_matrix() {
    let a = floats(&[2, 2], &[1., 2., 3., 4.]);
    assert_eq!(a.mean(), Some(F(2.5)));
}

#[test]
fn mean_of_integers_rounds_toward_zero() {
    let a = ints(&[4], &[2, 4, 6, 9]);
    assert_eq!(a.mean(), Some(5));
    let b = ints(&[2], &[-3, -4]);
    assert_eq!(b.mean(), Some(-3));
}

#[test]
fn max_of_a_matrix() {
    let a = ArrayBase::from_shape_vec(&[2, 2], vec![1., 2., 3., 4.]).unwrap();
    assert_eq!(a.max(), Some(&4.));
    let b = ArrayBase::from_shape_vec(&[2, 2], vec![1., f64::NAN, 3., 4.]).unwrap();
    assert_eq!(b.max(), None);
    let c = ArrayBase::from_shape_vec(&[1, 1], vec![f64::NAN]).unwrap();
    assert_eq!(c.max(), None);
    let d: ArrayBase<'_, f64> = ArrayBase::from_shape_vec(&[1, 0], vec![]).unwrap();
    assert_eq!(d.max(), None);
}

#[test]
fn nanmax_of_a_matrix() {
    let a = ArrayBase::from_shape_vec(&[2, 2], vec![1., 2., 3., 4.]).unwrap();
    assert_eq!(a.nanmax(), Some(&4.));
    let b = ArrayBase::from_shape_vec(&[2, 2], vec![1., f64::NAN, 3., f64::NAN]).unwrap();
    assert_eq!(b.nanmax(), Some(&3.));
    let c: ArrayBase<'_, f64> = ArrayBase::from_shape_vec(&[1, 0], vec![]).unwrap();
    assert_eq!(c.nanmax(), None);
    let d = ArrayBase::from_shape_vec(&[2, 2], vec![f64::NAN; 4]).unwrap();
    assert_eq!(d.nanmax(), None);
}

#[test]
fn min_of_a_matrix() {
    let a = ArrayBase::from_shape_vec(&[2, 2], vec![1., 2., 3., 4.]).unwrap();
    assert_eq!(a.min(), Some(&1.));
    let b = ArrayBase::from_shape_vec(&[2, 2], vec![1., f64::NAN, 3., 4.]).unwrap();
    assert_eq!(b.min(), None);
    let c = ArrayBase::from_shape_vec(&[1, 1], vec![f64::NAN]).unwrap();
    assert_eq!(c.min(), None);
    let d: ArrayBase<'_, f64> = ArrayBase::from_shape_vec(&[1, 0], vec![]).unwrap();
    assert_eq!(d.min(), None);
}

#[test]
fn nanmin_of_a_matrix() {
    let a = ArrayBase::from_shape_vec(&[2, 2], vec![1., 2., 3., 4.]).unwrap();
    assert_eq!(a.nanmin(), Some(&1.));
    let b = ArrayBase::from_shape_vec(&[2, 2], vec![f64::NAN, 2., 3., f64::NAN]).unwrap();
    assert_eq!(b.nanmin(), Some(&2.));
    let c: ArrayBase<'_, f64> = ArrayBase::from_shape_vec(&[1, 0], vec![]).unwrap();
    assert_eq!(c.nanmin(), None);
    let d = ArrayBase::from_shape_vec(&[2, 2], vec![f64::NAN; 4]).unwrap();
    assert_eq!(d.nanmin(), None);
}

#[test]
fn max_is_spoiled_by_one_nan_and_nanmax_passes_over_it() {
    let a = ArrayBase::from_shape_vec(&[4], vec![1., f64::NAN, 3., 4.]).unwrap();
    assert_eq!(a.max(), None);
    assert_eq!(a.min(), None);
    assert_eq!(a.nanmax(), Some(&4.));
    assert_eq!(a.nanmin(), Some(&1.));
    let last = ArrayBase::from_shape_vec(&[3], vec![1., 2., f64::NAN]).unwrap();
    assert_eq!(last.max(), None);
    assert_eq!(last.min(), None);
    assert_eq!(last.nanmax(), Some(&2.));
    let first = ArrayBase::from_shape_vec(&[3], vec![f64::NAN, 5., 2.]).unwrap();
    assert_eq!(first.max(), None);
    assert_eq!(first.nanmax(), Some(&5.));
    assert_eq!(first.nanmin(), Some(&2.));
}

#[test]
fn extremes_of_integers() {
    let a = ints(&[2, 3], &[4, -7, 9, 0, 9, 2]);
    assert_eq!(a.max(), Some(&9));
    assert_eq!(a.min(), Some(&-7));
    assert_eq!(a.nanmax(), Some(&9));
    assert_eq!(a.nanmin(), Some(&-7));
    let column = a.index_axis(Axis(1), 0);
    assert_eq!(column.max(), Some(&4));
    assert_eq!(column.min(), Some(&0));
}

#[test]
fn sum_axis_of_a_matrix() {
    let a = floats(&[2, 3], &[1., 2., 3., 4., 5., 6.]);
    let down = a.sum_axis(Axis(0));
    assert_eq!(down.shape(), &[3]);
    assert_eq!(plain(&down), vec![5., 7., 9.]);
    let across = a.sum_axis(Axis(1));
    assert_eq!(across.shape(), &[2]);
    assert_eq!(plain(&across), vec![6., 15.]);
    let all = a.sum_axis(Axis(0)).sum_axis(Axis(0));
    assert_eq!(all.ndim(), 0);
    assert_eq!(plain(&all), vec![21.]);
}

#[test]
fn sum_axis_twice_is_the_sum() {
    let values: Vec<i64> = (1..=35).map(|x| x * x - 11).collect();
    let a = ints(&[5, 7], &values);
    let total: i64 = values.iter().sum();
    assert_eq!(a.sum(), total);
    assert_eq!(a.sum_axis(Axis(0)).sum_axis(Axis(0)).to_vec(), vec![total]);
    assert_eq!(a.sum_axis(Axis(1)).sum_axis(Axis(0)).to_vec(), vec![total]);
    let t = a.reversed_axes();
    assert_eq!(t.sum(), total);
    assert_eq!(t.sum_axis(Axis(0)).sum_axis(Axis(0)).to_vec(), vec![total]);
    assert_eq!(t.sum_axis(Axis(1)).sum_axis(Axis(0)).to_vec(), vec![total]);
}

#[test]
fn sum_axis_of_a_cube() {
    let values: Vec<i64> = (0..24).collect();
    let a = ints(&[2, 3, 4], &values);
    assert_eq!(a.sum_axis(Axis(0)).shape(), &[3, 4]);
    assert_eq!(
        a.sum_axis(Axis(0)).to_vec(),
        vec![12, 14, 16, 18, 20, 22, 24, 26, 28, 30, 32, 34]
    );
    assert_eq!(a.sum_axis(Axis(1)).shape(), &[2, 4]);
    assert_eq!(a.sum_axis(Axis(1)).to_vec(), vec![12, 15, 18, 21, 48, 51, 54, 57]);
    assert_eq!(a.sum_axis(Axis(2)).shape(), &[2, 3]);
    assert_eq!(a.sum_axis(Axis(2)).to_vec(), vec![6, 22, 38, 54, 70, 86]);
}

#[test]
fn sum_axis_along_an_axis_without_indices_is_all_zero() {
    let a = ints(&[0, 3], &[]);
    assert_eq!(a.sum_axis(Axis(0)).to_vec(), vec![0, 0, 0]);
    assert_eq!(a.sum_axis(Axis(1)).to_vec(), Vec::<i64>::new());
    let b = ints(&[3, 0], &[]);
    assert_eq!(b.sum_axis(Axis(1)).to_vec(), vec![0, 0, 0]);
}

#[test]
fn mean_axis_of_a_matrix() {
    let a = floats(&[2, 3], &[1., 2., 3., 4., 5., 6.]);
    assert_eq!(plain(&a.mean_axis(Axis(0)).unwrap()), vec![2.5, 3.5, 4.5]);
    assert_eq!(plain(&a.mean_axis(Axis(1)).unwrap()), vec![2., 5.]);
    let all = a.mean_axis(Axis(0)).unwrap().mean_axis(Axis(0)).unwrap();
    assert_eq!(plain(&all), vec![3.5]);
}

#[test]
fn mean_axis_along_an_axis_without_indices_is_none() {
    let a = floats(&[0, 3], &[]);
    assert!(a.mean_axis(Axis(0)).is_none());
    assert!(a.mean_axis(Axis(1)).is_some());
    assert_eq!(a.mean_axis(Axis(1)).unwrap().len(), 0);
}

#[test]
fn var_axis_of_a_matrix() {
    let a = floats(&[3, 2], &[1., 2., 3., 4., 5., 6.]);
    let var = a.var_axis(Axis(0), F(1.));
    assert_eq!(var.shape(), &[2]);
    assert_eq!(plain(&var), vec![4., 4.]);
}

#[test]
fn std_axis_of_a_matrix() {
    let a = floats(&[3, 2], &[1., 2., 3., 4., 5., 6.]);
    let stddev = a.std_axis(Axis(0), F(1.));
    assert_eq!(plain(&stddev), vec![2., 2.]);
}

#[test]
fn var_axis_of_the_whole_population() {
    let a = floats(&[2, 4], &[2., 4., 4., 4., 5., 5., 7., 9.]);
    let t = a.reversed_axes();
    let var = t.var_axis(Axis(1), F(0.));
    assert_eq!(plain(&var), vec![2.25, 0.25, 2.25, 6.25]);
    let b = floats(&[1, 8], &[2., 4., 4., 4., 5., 5., 7., 9.]);
    assert_eq!(plain(&b.var_axis(Axis(1), F(0.))), vec![4.]);
    assert_eq!(plain(&b.std_axis(Axis(1), F(0.))), vec![2.]);
}

#[test]
fn var_axis_follows_the_one_pass_recurrence() {
    let xs = [0.1, 0.7, 0.2, 0.9, 0.4];
    let a = floats(&[5], &xs);
    let mut mean = 0.0f64;
    let mut sum_sq = 0.0f64;
    for (i, &x) in xs.iter().enumerate() {
        let delta = x - mean;
        mean += delta / (i as f64 + 1.0);
        sum_sq = (x - mean).mul_add(delta, sum_sq);
    }
    assert_eq!(plain(&a.var_axis(Axis(0), F(1.))), vec![sum_sq / 4.0]);
    assert_eq!(plain(&a.std_axis(Axis(0), F(1.))), vec![(sum_sq / 4.0).sqrt()]);
}

#[test]
fn var_axis_with_all_degrees_taken_divides_by_zero() {
    let a = floats(&[2], &[1., 3.]);
    let var = plain(&a.var_axis(Axis(0), F(2.)));
    assert!(var[0].is_infinite());
}

#[test]
fn var_and_std_axis_of_integers() {
    let a = ints(&[3, 2], &[1, 2, 3, 4, 5, 6]);
    assert_eq!(a.var_axis(Axis(0), 1).to_vec(), vec![4, 4]);
    assert_eq!(a.std_axis(Axis(0), 1).to_vec(), vec![2, 2]);
    assert_eq!(a.var_axis(Axis(1), 0).shape(), &[3]);
}

#[test]
fn integer_elements_take_their_identities_and_counts_from_num_traits() {
    assert_eq!(<i64 as Numeric>::zero(), 0);
    assert_eq!(<i64 as Numeric>::one(), 1);
    assert_eq!(<i64 as Numeric>::from_usize(0), Some(0));
    assert_eq!(<i64 as Numeric>::from_usize(41), Some(41));
    assert_eq!(<i64 as Numeric>::from_usize(i64::MAX as usize), Some(i64::MAX));
    if usize::MAX as u128 > i64::MAX as u128 {
        assert_eq!(<i64 as Numeric>::from_usize(i64::MAX as usize + 1), None);
        assert_eq!(<i64 as Numeric>::from_usize(usize::MAX), None);
    }
}

#[test]
fn integer_arithmetic_wraps_and_rounds_toward_zero() {
    assert_eq!(Numeric::add(i64::MAX, 1), i64::MIN);
    assert_eq!(Numeric::mul(i64::MAX, 2), -2);
    assert_eq!(Real::sub(i64::MIN, 1), i64::MAX);
    assert_eq!(Numeric::div(7i64, 2), 3);
    assert_eq!(Numeric::div(-7i64, 2), -3);
    assert_eq!(Numeric::div(7i64, -2), -3);
    assert_eq!(Numeric::div(i64::MIN, -1), i64::MIN);
    assert_eq!(Real::mul_add(3i64, 4, 5), 17);
}

#[test]
fn integer_square_roots_round_down() {
    assert_eq!(ndarray::scalar::isqrt(0), 0);
    assert_eq!(ndarray::scalar::isqrt(1), 1);
    assert_eq!(ndarray::scalar::isqrt(3), 1);
    assert_eq!(ndarray::scalar::isqrt(4), 2);
    assert_eq!(ndarray::scalar::isqrt(99), 9);
    assert_eq!(ndarray::scalar::isqrt(100), 10);
    assert_eq!(ndarray::scalar::isqrt(i64::MAX), 3037000499);
    assert_eq!(Real::sqrt(49i64), 7);
}

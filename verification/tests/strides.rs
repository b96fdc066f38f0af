use ndarray::ArrayBase;
use ndarray::Axis;
use ndarray::Dimension;
use ndarray::ShapeError;

#[test]
fn a_dimension_takes_any_strides() {
    let d = Dimension::with_strides(&[2, 3], &[-3, 1], 3).unwrap();
    assert_eq!(d.shape(), &[2, 3]);
    assert_eq!(d.strides(), &[-3, 1]);
    assert_eq!(d.offset(), 3);
    assert_eq!(d.size(), 6);
    assert!(!d.is_standard_layout());
    assert!(!d.is_contiguous());
    let copy = d.duplicate();
    assert_eq!(copy.strides(), d.strides());
    assert_eq!(copy.offset(), 3);
    assert_eq!(d.to_standard().strides(), &[3, 1]);
    assert_eq!(d.to_standard().offset(), 0);
}

#[test]
fn shape_and_strides_must_have_one_length() {
    assert!(matches!(
        Dimension::with_strides(&[2, 3], &[1], 0),
        Err(ShapeError::IncompatibleShape)
    ));
    assert!(matches!(
        Dimension::with_strides(&[usize::MAX, 3], &[1, 1], 0),
        Err(ShapeError::Overflow)
    ));
}

#[test]
fn fits_follows_the_lowest_and_the_highest_element() {
    let d = Dimension::with_strides(&[2, 3], &[-3, 1], 3).unwrap();
    assert!(d.fits(6));
    assert!(!d.fits(5));
    let low = Dimension::with_strides(&[2, 3], &[-3, 1], 2).unwrap();
    assert!(!low.fits(100));
    let back = Dimension::with_strides(&[4], &[-2], 6).unwrap();
    assert!(back.fits(7));
    assert!(!back.fits(6));
    let over = Dimension::with_strides(&[4], &[2], 1).unwrap();
    assert!(over.fits(8));
    assert!(!over.fits(7));
    let empty = Dimension::with_strides(&[0, 5], &[100, -100], 77).unwrap();
    assert!(empty.fits(0));
    let scalar = Dimension::with_strides(&[], &[], 4).unwrap();
    assert!(scalar.fits(5));
    assert!(!scalar.fits(4));
    let huge = Dimension::with_strides(&[3, 3], &[isize::MAX, isize::MIN], 0).unwrap();
    assert!(!huge.fits(usize::MAX));
}

#[test]
fn an_array_is_refused_where_an_element_would_lie_outside() {
    let data = [0i64, 1, 2, 3, 4, 5];
    let d = Dimension::with_strides(&[2, 3], &[3, 1], 1).unwrap();
    assert!(matches!(ArrayBase::from_dim_slice(d, &data), Err(ShapeError::OutOfBounds)));
    let e = Dimension::with_strides(&[2, 3], &[3, 1], 0).unwrap();
    assert!(matches!(
        ArrayBase::from_dim_vec(e, vec![1, 2, 3, 4, 5]),
        Err(ShapeError::OutOfBounds)
    ));
    let f = Dimension::with_strides(&[2, 3], &[3, 1], 0).unwrap();
    assert!(ArrayBase::from_dim_vec(f, vec![1, 2, 3, 4, 5, 6, 7]).is_ok());
}

#[test]
fn a_view_with_a_negative_stride_reads_backwards() {
    let data = [0i64, 1, 2, 3, 4, 5];
    let d = Dimension::with_strides(&[2, 3], &[-3, 1], 3).unwrap();
    let v = ArrayBase::from_dim_slice(d, &data).unwrap();
    assert_eq!(v.to_vec(), vec![3, 4, 5, 0, 1, 2]);
    assert_eq!(v.first(), Some(&3));
    assert_eq!(v.get(&[1, 2]), Some(&2));
    assert!(v.as_slice_memory_order().is_none());
    assert_eq!(v.sum(), 15);
    assert_eq!(v.max(), Some(&5));
    assert_eq!(v.min(), Some(&0));
    assert_eq!(v.sum_axis(Axis(0)).to_vec(), vec![3, 5, 7]);
    assert_eq!(v.sum_axis(Axis(1)).to_vec(), vec![12, 3]);
    assert_eq!(v.index_axis(Axis(0), 1).to_vec(), vec![0, 1, 2]);
    let r = Dimension::with_strides(&[6], &[-1], 5).unwrap();
    let w = ArrayBase::from_dim_slice(r, &data).unwrap();
    assert_eq!(w.to_vec(), vec![5, 4, 3, 2, 1, 0]);
    assert_eq!(w.sum(), 15);
    assert_eq!(w.slice_axis(Axis(0), 1, 3).to_vec(), vec![4, 3, 2]);
}

#[test]
fn a_view_with_a_zero_stride_repeats_its_elements() {
    let data = [1i64, 2, 3];
    let d = Dimension::with_strides(&[4, 3], &[0, 1], 0).unwrap();
    let v = ArrayBase::from_dim_slice(d, &data).unwrap();
    assert_eq!(v.len(), 12);
    assert_eq!(v.to_vec(), vec![1, 2, 3, 1, 2, 3, 1, 2, 3, 1, 2, 3]);
    assert!(!v.raw_dim().is_contiguous());
    assert_eq!(v.sum(), 24);
    assert_eq!(v.sum_axis(Axis(0)).to_vec(), vec![4, 8, 12]);
    assert_eq!(v.sum_axis(Axis(1)).to_vec(), vec![6, 6, 6, 6]);
    assert_eq!(v.var_axis(Axis(0), 0).to_vec(), vec![0, 0, 0]);
}

#[test]
fn a_matrix_with_a_step_between_its_columns() {
    let data: Vec<i64> = (0..12).collect();
    let d = Dimension::with_strides(&[3, 2], &[4, 2], 1).unwrap();
    let v = ArrayBase::from_dim_vec(d, data).unwrap();
    assert_eq!(v.to_vec(), vec![1, 3, 5, 7, 9, 11]);
    assert_eq!(v.sum(), 36);
    assert_eq!(v.product(), 10395);
    assert_eq!(v.mean(), Some(6));
    assert_eq!(v.sum_axis(Axis(1)).to_vec(), vec![4, 12, 20]);
    assert_eq!(v.mean_axis(Axis(0)).unwrap().to_vec(), vec![5, 7]);
    let t = v.reversed_axes();
    assert_eq!(t.to_vec(), vec![1, 5, 9, 3, 7, 11]);
    assert_eq!(t.sum_axis(Axis(0)).to_vec(), vec![4, 12, 20]);
}

#[test]
fn a_matrix_in_column_major_order_is_contiguous() {
    let data = [1i64, 2, 3, 4, 5, 6];
    let d = Dimension::with_strides(&[2, 3], &[1, 2], 0).unwrap();
    assert!(d.is_column_major_layout());
    assert!(!d.is_standard_layout());
    assert!(d.is_contiguous());
    let v = ArrayBase::from_dim_slice(d, &data).unwrap();
    assert_eq!(v.to_vec(), vec![1, 3, 5, 2, 4, 6]);
    assert_eq!(v.as_slice_memory_order().unwrap(), &data);
    assert!(v.as_slice().is_none());
    assert_eq!(v.sum_axis(Axis(0)).to_vec(), vec![3, 7, 11]);
    assert_eq!(v.sum_axis(Axis(1)).to_vec(), vec![9, 12]);
    let shifted = Dimension::with_strides(&[2, 2], &[1, 2], 2).unwrap();
    let w = ArrayBase::from_dim_slice(shifted, &data).unwrap();
    assert_eq!(w.as_slice_memory_order().unwrap(), &[3, 4, 5, 6]);
    assert_eq!(w.sum(), 18);
}

#[test]
fn overlapping_strides_are_never_taken_for_contiguous() {
    for (shape, strides) in [
        (vec![2usize, 3], vec![1isize, 1]),
        (vec![3, 3], vec![0, 1]),
        (vec![2, 2], vec![2, 2]),
        (vec![4], vec![0]),
        (vec![2, 2, 2], vec![2, 1, 1]),
    ] {
        let d = Dimension::with_strides(&shape, &strides, 0).unwrap();
        assert!(!d.is_contiguous(), "{:?} {:?}", shape, strides);
        assert!(!d.is_standard_layout());
        assert!(!d.is_column_major_layout());
    }
}

#[test]
fn nested_axes_keep_their_elements_apart() {
    for (shape, strides, nested) in [
        (vec![2usize, 3], vec![3isize, 1], true),
        (vec![2, 3], vec![1, 2], true),
        (vec![2, 3], vec![-3, 1], true),
        (vec![2, 3], vec![4, -1], true),
        (vec![3, 2], vec![4, 2], true),
        (vec![2, 3], vec![1, 1], false),
        (vec![4, 3], vec![0, 1], false),
        (vec![1, 3], vec![0, 1], true),
        (vec![2, 2], vec![2, 2], false),
        (vec![2, 3], vec![2, 1], false),
        (vec![0, 3], vec![0, 0], true),
        (vec![], vec![], true),
        (vec![3], vec![0], false),
        (vec![3], vec![-7], true),
        (vec![2, 2, 2], vec![4, 2, 1], true),
        (vec![2, 2, 2], vec![1, 2, 4], true),
        (vec![2, 2, 2], vec![2, 4, 1], false),
        (vec![2, 2], vec![isize::MIN, 1], true),
    ] {
        let d = Dimension::with_strides(&shape, &strides, 0).unwrap();
        assert_eq!(d.is_nested(), nested, "{:?} {:?}", shape, strides);
    }
    assert!(Dimension::from_shape(&[4, 5, 6]).unwrap().is_nested());
    assert!(Dimension::from_shape(&[4, 5, 6]).unwrap().reversed_axes().is_nested());
}

#[test]
fn mapv_gives_a_fresh_array_of_the_images() {
    let a = ArrayBase::from_shape_vec(&[2, 3], vec![1i64, 2, 3, 4, 5, 6]).unwrap();
    let t = a.reversed_axes();
    let doubled = t.mapv(|x| 2 * x);
    assert_eq!(doubled.shape(), &[3, 2]);
    assert_eq!(doubled.strides(), &[2, 1]);
    assert_eq!(doubled.to_vec(), vec![2, 8, 4, 10, 6, 12]);
    let signs = a.mapv(|x| x % 2 == 0);
    assert_eq!(signs.to_vec(), vec![false, true, false, true, false, true]);
    assert_eq!(a.to_vec(), vec![1, 2, 3, 4, 5, 6]);
}

#[test]
fn mapv_into_visits_every_element_once() {
    let a = ArrayBase::from_shape_vec(&[2, 3], vec![1i64, 2, 3, 4, 5, 6]).unwrap();
    let b = a.mapv_into(|x| x + 10);
    assert_eq!(b.strides(), &[3, 1]);
    assert_eq!(b.to_vec(), vec![11, 12, 13, 14, 15, 16]);
    let gaps = Dimension::with_strides(&[2, 2], &[-4, 2], 5).unwrap();
    let c = ArrayBase::from_dim_vec(gaps, (0..8).collect::<Vec<i64>>()).unwrap();
    assert_eq!(c.to_vec(), vec![5, 7, 1, 3]);
    let d = c.mapv_into(|x| -x);
    assert_eq!(d.to_vec(), vec![-5, -7, -1, -3]);
    assert_eq!(d.strides(), &[-4, 2]);
    assert_eq!(d.raw_data(), &[0, -1, 2, -3, 4, -5, 6, -7]);
    let repeat = Dimension::with_strides(&[3, 2], &[0, 1], 0).unwrap();
    let e = ArrayBase::from_dim_vec(repeat, vec![1i64, 2]).unwrap();
    let g = e.mapv_into(|x| x * 3);
    assert_eq!(g.to_vec(), vec![3, 6, 3, 6, 3, 6]);
    let data = [1i64, 2, 3];
    let v = ArrayBase::from_shape_slice(&[3], &data).unwrap();
    assert_eq!(v.mapv_into(|x| x * x).to_vec(), vec![1, 4, 9]);
    assert_eq!(data, [1, 2, 3]);
}

use ndarray::ArrayBase;
use ndarray::Axis;
use ndarray::Dimension;
use ndarray::ShapeError;

fn ints(shape: &[usize], values: &[i64]) -> ArrayBase<'static, i64> {
    ArrayBase::from_shape_vec(shape, values.to_vec()).unwrap()
}

fn counting(shape: &[usize]) -> ArrayBase<'static, i64> {
    let n: usize = shape.iter().product();
    ArrayBase::from_shape_vec(shape, (0..n as i64).collect()).unwrap()
}

#[test]
fn a_fresh_dimension_is_row_major() {
    let d = Dimension::from_shape(&[2, 3, 4]).unwrap();
    assert_eq!(d.ndim(), 3);
    assert_eq!(d.shape(), &[2, 3, 4]);
    assert_eq!(d.strides(), &[12, 4, 1]);
    assert_eq!(d.offset(), 0);
    assert_eq!(d.size(), 24);
    assert_eq!(d.len_of(Axis(1)), 3);
    assert_eq!(d.stride_of(Axis(0)), 12);
    assert!(d.is_standard_layout());
    assert!(d.is_contiguous());
}

#[test]
fn a_dimension_without_axes_has_one_element() {
    let d = Dimension::from_shape(&[]).unwrap();
    assert_eq!(d.ndim(), 0);
    assert_eq!(d.size(), 1);
    assert!(d.is_standard_layout());
}

#[test]
fn a_zero_extent_makes_the_size_zero() {
    let d = Dimension::from_shape(&[3, 0, 2]).unwrap();
    assert_eq!(d.size(), 0);
    assert_eq!(d.strides(), &[0, 2, 1]);
    assert!(d.is_standard_layout());
    assert!(d.is_column_major_layout());
}

#[test]
fn a_shape_that_is_too_large_is_refused() {
    assert!(matches!(
        Dimension::from_shape(&[usize::MAX, 2]),
        Err(ShapeError::Overflow)
    ));
    assert!(matches!(
        Dimension::from_shape(&[isize::MAX as usize, 2, 0]),
        Err(ShapeError::Overflow)
    ));
    assert!(Dimension::from_shape(&[isize::MAX as usize, 1, 0]).is_ok());
    let r: Result<ArrayBase<'_, u8>, ShapeError> =
        ArrayBase::from_shape_vec(&[usize::MAX, 2], vec![]);
    assert!(matches!(r, Err(ShapeError::Overflow)));
}

#[test]
fn data_that_does_not_match_the_shape_is_refused() {
    let r = ArrayBase::from_shape_vec(&[2, 3], vec![1, 2, 3, 4, 5]);
    assert!(matches!(r, Err(ShapeError::IncompatibleShape)));
    let data = [1, 2, 3, 4, 5, 6, 7];
    let v = ArrayBase::from_shape_slice(&[2, 3], &data);
    assert!(matches!(v, Err(ShapeError::IncompatibleShape)));
    assert!(ArrayBase::from_shape_slice(&[7], &data).is_ok());
}

#[test]
fn removing_an_axis_divides_the_size_by_its_extent() {
    let shape = [2usize, 3, 4, 5];
    let d = Dimension::from_shape(&shape).unwrap();
    for a in 0..4 {
        let r = d.remove_axis(Axis(a));
        assert_eq!(r.ndim(), 3);
        assert_eq!(r.size(), 120 / shape[a]);
    }
    assert_eq!(d.remove_axis(Axis(1)).shape(), &[2, 4, 5]);
    assert_eq!(d.remove_axis(Axis(1)).strides(), &[60, 5, 1]);
    let z = Dimension::from_shape(&[3, 0]).unwrap();
    assert_eq!(z.remove_axis(Axis(1)).size(), 3);
    assert_eq!(z.remove_axis(Axis(0)).size(), 0);
}

#[test]
fn inserting_an_axis_keeps_the_size() {
    let d = Dimension::from_shape(&[2, 3]).unwrap();
    let front = d.insert_axis(Axis(0));
    assert_eq!(front.shape(), &[1, 2, 3]);
    assert_eq!(front.size(), 6);
    let back = d.insert_axis(Axis(2));
    assert_eq!(back.shape(), &[2, 3, 1]);
    assert_eq!(back.strides(), &[3, 1, 1]);
    assert!(back.is_standard_layout());
    assert_eq!(back.remove_axis(Axis(2)).shape(), &[2, 3]);
}

#[test]
fn dimensions_are_equal_when_their_shapes_are() {
    let a = Dimension::from_shape(&[2, 3]).unwrap();
    let b = Dimension::from_shape(&[3, 2]).unwrap();
    assert!(a != b);
    assert!(a == b.reversed_axes());
    assert!(a.same_shape(&b.reversed_axes()));
    assert!(a != Dimension::from_shape(&[2, 3, 1]).unwrap());
    assert_eq!(b.reversed_axes().strides(), &[1, 2]);
}

#[test]
fn a_transposed_matrix_is_not_in_standard_layout() {
    let a = counting(&[2, 3]);
    assert!(a.raw_dim().is_standard_layout());
    let t = a.reversed_axes();
    assert_eq!(t.shape(), &[3, 2]);
    assert_eq!(t.strides(), &[1, 3]);
    assert!(!t.raw_dim().is_standard_layout());
    assert!(t.raw_dim().is_column_major_layout());
    assert!(t.as_slice().is_none());
    assert_eq!(t.as_slice_memory_order().unwrap(), &[0, 1, 2, 3, 4, 5]);
    assert_eq!(t.to_vec(), vec![0, 3, 1, 4, 2, 5]);
    assert!(!a.raw_dim().is_column_major_layout());
}

#[test]
fn axes_with_one_index_do_not_count_for_the_layout() {
    let a = counting(&[4, 1]);
    assert!(a.raw_dim().is_standard_layout());
    assert!(a.raw_dim().is_column_major_layout());
    let t = a.reversed_axes();
    assert_eq!(t.strides(), &[1, 1]);
    assert!(t.raw_dim().is_standard_layout());
    assert_eq!(t.as_slice().unwrap(), &[0, 1, 2, 3]);
    let row = counting(&[3, 4]);
    let one = row.slice_axis(Axis(0), 1, 1);
    assert_eq!(one.shape(), &[1, 4]);
    assert!(one.raw_dim().is_standard_layout());
    assert_eq!(one.as_slice().unwrap(), &[4, 5, 6, 7]);
}

#[test]
fn a_view_with_gaps_is_not_contiguous() {
    let a = counting(&[3, 4]);
    let left = a.slice_axis(Axis(1), 0, 2);
    assert_eq!(left.strides(), &[4, 1]);
    assert!(!left.raw_dim().is_contiguous());
    assert!(left.as_slice().is_none());
    assert!(left.as_slice_memory_order().is_none());
    let top = a.slice_axis(Axis(0), 0, 2);
    assert!(top.raw_dim().is_standard_layout());
    assert_eq!(top.as_slice().unwrap(), &[0, 1, 2, 3, 4, 5, 6, 7]);
    let column = a.index_axis(Axis(1), 1);
    assert!(!column.raw_dim().is_contiguous());
}

#[test]
fn index_axis_gives_the_elements_of_that_part_in_order() {
    let a = counting(&[2, 3, 4]);
    let whole = a.to_vec();
    for axis in 0..3usize {
        for i in 0..a.len_of(Axis(axis)) {
            let part = a.index_axis(Axis(axis), i);
            assert_eq!(part.ndim(), 2);
            let mut expected = Vec::new();
            let mut it = a.indexed_iter();
            let mut k = 0;
            while let Some((idx, x)) = it.next() {
                assert_eq!(*x, whole[k]);
                if idx[axis] == i {
                    expected.push(*x);
                }
                k += 1;
            }
            assert_eq!(part.to_vec(), expected);
        }
    }
    assert_eq!(a.index_axis(Axis(0), 1).to_vec(), (12..24).collect::<Vec<i64>>());
    assert_eq!(a.index_axis(Axis(1), 2).to_vec(), vec![8, 9, 10, 11, 20, 21, 22, 23]);
    assert_eq!(a.index_axis(Axis(2), 3).to_vec(), vec![3, 7, 11, 15, 19, 23]);
    assert_eq!(a.index_axis(Axis(2), 3).strides(), &[12, 4]);
}

#[test]
fn index_axis_of_a_vector_is_a_scalar_array() {
    let a = ints(&[3], &[5, 6, 7]);
    let x = a.index_axis(Axis(0), 2);
    assert_eq!(x.ndim(), 0);
    assert_eq!(x.len(), 1);
    assert_eq!(x.to_vec(), vec![7]);
    assert_eq!(x.first(), Some(&7));
    assert_eq!(x.get(&[]), Some(&7));
}

#[test]
fn index_axis_of_an_array_without_elements() {
    let a = ints(&[2, 0], &[]);
    let part = a.index_axis(Axis(0), 1);
    assert_eq!(part.shape(), &[0]);
    assert_eq!(part.to_vec(), Vec::<i64>::new());
    assert_eq!(part.first(), None);
}

#[test]
fn get_reads_by_index_and_refuses_what_is_outside() {
    let a = counting(&[2, 3]);
    assert_eq!(a.get(&[0, 0]), Some(&0));
    assert_eq!(a.get(&[1, 2]), Some(&5));
    assert_eq!(a.get(&[0, 3]), None);
    assert_eq!(a.get(&[2, 0]), None);
    assert_eq!(a.get(&[1]), None);
    assert_eq!(a.get(&[1, 1, 0]), None);
    let t = a.reversed_axes();
    assert_eq!(t.get(&[2, 1]), Some(&5));
    assert_eq!(t.get(&[1, 0]), Some(&1));
    assert_eq!(t.get(&[1, 2]), None);
}

#[test]
fn first_is_the_element_at_the_origin() {
    let a = counting(&[2, 3]);
    assert_eq!(a.first(), Some(&0));
    assert_eq!(a.slice_axis(Axis(1), 1, 2).first(), Some(&1));
    assert_eq!(a.index_axis(Axis(0), 1).first(), Some(&3));
    let e = ints(&[0, 2], &[]);
    assert_eq!(e.first(), None);
    assert!(e.is_empty());
}

#[test]
fn iter_walks_in_row_major_order() {
    let a = counting(&[2, 3]);
    let t = a.reversed_axes();
    let mut it = t.iter();
    assert_eq!(it.len(), 6);
    let mut seen = Vec::new();
    while let Some(x) = it.next() {
        seen.push(*x);
    }
    assert_eq!(seen, vec![0, 3, 1, 4, 2, 5]);
    assert_eq!(it.len(), 0);
    assert_eq!(it.next(), None);
    let mut again = t.iter();
    assert_eq!(again.next(), Some(&0));
}

#[test]
fn indexed_iter_gives_each_index_with_its_element() {
    let a = counting(&[2, 2, 2]);
    let mut it = a.indexed_iter();
    let mut seen = Vec::new();
    while let Some((idx, x)) = it.next() {
        assert_eq!(a.get(&idx), Some(x));
        seen.push(idx);
    }
    assert_eq!(
        seen,
        vec![
            vec![0, 0, 0],
            vec![0, 0, 1],
            vec![0, 1, 0],
            vec![0, 1, 1],
            vec![1, 0, 0],
            vec![1, 0, 1],
            vec![1, 1, 0],
            vec![1, 1, 1]
        ]
    );
}

#[test]
fn offsets_are_the_buffer_positions_in_row_major_order() {
    let a = counting(&[3, 4]);
    let middle = a.slice_axis(Axis(1), 1, 2);
    let v = middle.reversed_axes();
    let mut it = ndarray::Offsets::new(v.raw_dim(), v.raw_data().len());
    assert_eq!(it.remaining(), 6);
    assert_eq!(it.index(), &[0, 0]);
    let mut seen = Vec::new();
    while let Some(p) = it.next() {
        seen.push(p);
    }
    assert_eq!(seen, vec![1, 5, 9, 2, 6, 10]);
    assert_eq!(it.remaining(), 0);
}

#[test]
fn axis_iter_gives_one_part_per_index() {
    let a = counting(&[2, 3]);
    let mut rows = a.axis_iter(Axis(0));
    assert_eq!(rows.len(), 2);
    let first = rows.next().unwrap();
    let second = rows.next().unwrap();
    assert!(rows.next().is_none());
    assert_eq!(first.to_vec(), vec![0, 1, 2]);
    assert_eq!(second.to_vec(), vec![3, 4, 5]);
    let mut columns = a.axis_iter(Axis(1));
    let mut seen = Vec::new();
    while let Some(c) = columns.next() {
        assert_eq!(c.shape(), &[2]);
        seen.push(c.to_vec());
    }
    assert_eq!(seen, vec![vec![0, 3], vec![1, 4], vec![2, 5]]);
    let e = ints(&[0, 3], &[]);
    assert!(e.axis_iter(Axis(0)).next().is_none());
}

#[test]
fn axis_chunks_iter_leaves_the_rest_to_the_last_chunk() {
    let a = counting(&[7, 2]);
    let mut chunks = a.axis_chunks_iter(Axis(0), 3);
    assert_eq!(chunks.len(), 3);
    let mut seen = Vec::new();
    while let Some(c) = chunks.next() {
        seen.push((c.shape().to_vec(), c.to_vec()));
    }
    assert_eq!(
        seen,
        vec![
            (vec![3, 2], vec![0, 1, 2, 3, 4, 5]),
            (vec![3, 2], vec![6, 7, 8, 9, 10, 11]),
            (vec![1, 2], vec![12, 13])
        ]
    );
    let mut wide = a.axis_chunks_iter(Axis(1), 5);
    assert_eq!(wide.len(), 1);
    assert_eq!(wide.next().unwrap().to_vec(), a.to_vec());
    assert!(wide.next().is_none());
}

#[test]
fn exact_chunks_refuses_a_size_that_leaves_a_rest() {
    let a = counting(&[6]);
    assert!(matches!(a.exact_chunks(Axis(0), 4), Err(ShapeError::UnevenChunks)));
    assert!(matches!(a.exact_chunks(Axis(0), 0), Err(ShapeError::UnevenChunks)));
    assert!(matches!(a.exact_chunks(Axis(0), 7), Err(ShapeError::UnevenChunks)));
}

#[test]
fn exact_chunks_cover_the_axis_without_overlap() {
    let a = counting(&[6]);
    let mut chunks = a.exact_chunks(Axis(0), 3).unwrap();
    assert_eq!(chunks.len(), 2);
    let mut seen = Vec::new();
    let mut count = 0;
    while let Some(c) = chunks.next() {
        assert_eq!(c.shape(), &[3]);
        seen.extend(c.to_vec());
        count += 1;
    }
    assert_eq!(count, 2);
    assert_eq!(seen, a.to_vec());
    let m = counting(&[2, 6]);
    let mut blocks = m.exact_chunks(Axis(1), 2).unwrap();
    let mut parts = Vec::new();
    while let Some(c) = blocks.next() {
        parts.push(c.to_vec());
    }
    assert_eq!(parts, vec![vec![0, 1, 6, 7], vec![2, 3, 8, 9], vec![4, 5, 10, 11]]);
    let e = ints(&[0], &[]);
    let mut none = e.exact_chunks(Axis(0), 3).unwrap();
    assert!(none.next().is_none());
}

#[test]
fn a_view_reads_the_buffer_of_its_array() {
    let data = [1i64, 2, 3, 4, 5, 6];
    let v = ArrayBase::from_shape_slice(&[3, 2], &data).unwrap();
    assert_eq!(v.raw_data(), &data);
    assert_eq!(v.index_axis(Axis(0), 2).raw_data(), &data);
    assert_eq!(v.index_axis(Axis(0), 2).raw_dim().offset(), 4);
    let a = ArrayBase::from_shape_vec(&[3, 2], data.to_vec()).unwrap();
    assert_eq!(a.as_view().to_vec(), a.to_vec());
    assert_eq!(a.as_view().strides(), a.strides());
}

#[test]
fn an_array_can_be_made_of_one_value() {
    let a = ArrayBase::from_elem(&[2, 3], 7u8).unwrap();
    assert_eq!(a.shape(), &[2, 3]);
    assert_eq!(a.strides(), &[3, 1]);
    assert_eq!(a.to_vec(), vec![7; 6]);
    let z: ArrayBase<'_, i64> = ArrayBase::zeros(&[4]).unwrap();
    assert_eq!(z.to_vec(), vec![0, 0, 0, 0]);
    assert_eq!(z.sum(), 0);
    let none: ArrayBase<'_, i64> = ArrayBase::zeros(&[4, 0]).unwrap();
    assert!(none.is_empty());
    assert!(matches!(
        ArrayBase::from_elem(&[usize::MAX, 2, 0], 1u8),
        Err(ShapeError::Overflow)
    ));
}

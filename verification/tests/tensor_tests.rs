use candle_core::dtype::{DType, Device};
use candle_core::error::Error;
use candle_core::tensor::Tensor;

fn t2x3() -> Tensor {
    Tensor::from_vec(vec![0, 1, 2, 3, 4, 5], &vec![3, 2], &Device::Cpu).unwrap()
}

#[test]
fn zeros_ones_like_sub_is_ones() {
    let shape = vec![2, 3];
    let z = Tensor::zeros(&shape, DType::I64, &Device::Cpu).unwrap();
    let o = z.ones_like().unwrap();
    let d = o.sub(&z).unwrap();
    let ones = Tensor::ones(&shape, DType::I64, &Device::Cpu).unwrap();
    assert_eq!(d.to_vec2().unwrap(), ones.to_vec2().unwrap());
    assert_eq!(d.to_vec2().unwrap(), vec![vec![1, 1, 1], vec![1, 1, 1]]);
}

#[test]
fn reshape_left_inverse() {
    let t = Tensor::from_vec(vec![1, 2, 3, 4, 5, 6], &vec![2, 3], &Device::Cpu).unwrap();
    let r1 = t.reshape(&vec![3, 2]).unwrap();
    let r2 = r1.reshape(&vec![2, 3]).unwrap();
    assert_eq!(r2.dims(), t.dims());
    assert_eq!(r2.to_vec2().unwrap(), t.to_vec2().unwrap());
}

#[test]
fn transpose_twice_is_identity() {
    let t = t2x3();
    let r = t.transpose(0, 1).unwrap().transpose(0, 1).unwrap();
    assert_eq!(r.dims(), t.dims());
    assert_eq!(r.to_vec2().unwrap(), t.to_vec2().unwrap());
}

#[test]
fn transpose_values() {
    let t = t2x3();
    let r = t.t().unwrap();
    assert_eq!(r.dims(), &vec![2, 3]);
    assert_eq!(r.to_vec2().unwrap(), vec![vec![0, 2, 4], vec![1, 3, 5]]);
}

#[test]
fn broadcast_add_matches_explicit_broadcast() {
    let a = Tensor::from_vec(vec![10, 20, 30], &vec![3, 1], &Device::Cpu).unwrap();
    let b = Tensor::from_vec(vec![1, 2], &vec![2], &Device::Cpu).unwrap();
    let common = vec![3, 2];
    let r1 = a.broadcast_add(&b).unwrap();
    let va = a.broadcast_as(&common).unwrap();
    let vb = b.broadcast_as(&common).unwrap();
    let r2 = va.add(&vb).unwrap();
    assert_eq!(r1.to_vec2().unwrap(), r2.to_vec2().unwrap());
    assert_eq!(
        r1.to_vec2().unwrap(),
        vec![vec![11, 12], vec![21, 22], vec![31, 32]]
    );
}

#[test]
fn cat_then_narrow_recovers_operands() {
    let a = Tensor::from_vec(vec![1, 2, 3, 4], &vec![2, 2], &Device::Cpu).unwrap();
    let b = Tensor::from_vec(vec![5, 6], &vec![1, 2], &Device::Cpu).unwrap();
    let c = Tensor::cat(&vec![a.clone(), b.clone()], 0).unwrap();
    assert_eq!(c.dims(), &vec![3, 2]);
    let n1 = c.narrow(0, 0, 2).unwrap();
    let n2 = c.narrow(0, 2, 1).unwrap();
    assert_eq!(n1.to_vec2().unwrap(), a.to_vec2().unwrap());
    assert_eq!(n2.to_vec2().unwrap(), b.to_vec2().unwrap());
}

#[test]
fn cat_along_second_axis() {
    let a = Tensor::from_vec(vec![1, 2, 3, 4], &vec![2, 2], &Device::Cpu).unwrap();
    let b = Tensor::from_vec(vec![7, 8], &vec![2, 1], &Device::Cpu).unwrap();
    let c = Tensor::cat(&vec![a, b], 1).unwrap();
    assert_eq!(c.dims(), &vec![2, 3]);
    assert_eq!(c.to_vec2().unwrap(), vec![vec![1, 2, 7], vec![3, 4, 8]]);
}

#[test]
fn sum_keepdim_per_axis() {
    let t = t2x3();
    let s0 = t.sum_keepdim(&vec![0]).unwrap();
    assert_eq!(s0.dims(), &vec![1, 2]);
    assert_eq!(s0.to_vec2().unwrap(), vec![vec![6, 9]]);
    let s1 = t.sum_keepdim(&vec![1]).unwrap();
    assert_eq!(s1.dims(), &vec![3, 1]);
    assert_eq!(s1.to_vec2().unwrap(), vec![vec![1], vec![5], vec![9]]);
}

#[test]
fn sum_squeezes_and_sums_all() {
    let t = t2x3();
    let s = t.sum(&vec![0]).unwrap();
    assert_eq!(s.dims(), &vec![2]);
    assert_eq!(s.to_vec1().unwrap(), vec![6, 9]);
    let all = t.sum_all().unwrap();
    assert_eq!(all.to_scalar().unwrap(), 15);
}

#[test]
fn affine_scales_then_shifts() {
    let t = Tensor::from_vec(vec![0, 1, 2, 3], &vec![2, 2], &Device::Cpu).unwrap();
    let r = t.affine(4, -2).unwrap();
    assert_eq!(r.to_vec2().unwrap(), vec![vec![-2, 2], vec![6, 10]]);
}

#[test]
fn embedding_looks_rows_up() {
    let vocab =
        Tensor::from_vec(vec![0, 1, 2, 3, 4, 5], &vec![3, 2], &Device::Cpu).unwrap();
    let ids = Tensor::from_vec(vec![2, 1, 2], &vec![3], &Device::Cpu).unwrap();
    let e = vocab.embedding(&ids).unwrap();
    assert_eq!(
        e.to_vec2().unwrap(),
        vec![vec![4, 5], vec![2, 3], vec![4, 5]]
    );
}

#[test]
fn matmul_two_by_three_by_four() {
    let a = Tensor::arange(0, 6, &Device::Cpu)
        .unwrap()
        .reshape(&vec![2, 3])
        .unwrap();
    let b = Tensor::arange(0, 12, &Device::Cpu)
        .unwrap()
        .reshape(&vec![3, 4])
        .unwrap();
    let c = a.matmul(&b).unwrap();
    assert_eq!(c.dims(), &vec![2, 4]);
    assert_eq!(
        c.to_vec2().unwrap(),
        vec![vec![20, 23, 26, 29], vec![56, 68, 80, 92]]
    );
}

#[test]
fn argmax_first_maximum_wins() {
    let t = Tensor::from_vec(vec![3, 1, 3], &vec![3], &Device::Cpu).unwrap();
    let a = t.argmax(0).unwrap();
    assert_eq!(a.to_scalar().unwrap(), 0);
    let ak = t.argmax_keepdim(0).unwrap();
    assert_eq!(ak.to_vec1().unwrap(), vec![0]);
}

#[test]
fn view_operations_share_storage_and_copies_do_not() {
    let t = t2x3();
    let tr = t.transpose(0, 1).unwrap();
    assert!(t.same_storage(&tr));
    let nr = t.narrow(0, 1, 1).unwrap();
    assert!(t.same_storage(&nr));
    let bc = t.broadcast_as(&vec![2, 3, 2]).unwrap();
    assert!(t.same_storage(&bc));
    let rs = t.reshape(&vec![6]).unwrap();
    assert!(t.same_storage(&rs));
    let de = t.detach().unwrap();
    assert!(t.same_storage(&de));
    // copies get a fresh buffer
    let cp = t.copy().unwrap();
    assert!(!t.same_storage(&cp));
    // reshaping a non-contiguous view copies
    let rs2 = tr.reshape(&vec![6]).unwrap();
    assert!(!tr.same_storage(&rs2));
    let ct = tr.contiguous().unwrap();
    assert!(!tr.same_storage(&ct));
    // an already-contiguous tensor is returned as the same storage
    let ct2 = t.contiguous().unwrap();
    assert!(t.same_storage(&ct2));
}

#[test]
fn elementwise_binary_ops() {
    let a = Tensor::from_vec(vec![5, -3, 7], &vec![3], &Device::Cpu).unwrap();
    let b = Tensor::from_vec(vec![2, 4, -7], &vec![3], &Device::Cpu).unwrap();
    assert_eq!(a.add(&b).unwrap().to_vec1().unwrap(), vec![7, 1, 0]);
    assert_eq!(a.sub(&b).unwrap().to_vec1().unwrap(), vec![3, -7, 14]);
    assert_eq!(a.mul(&b).unwrap().to_vec1().unwrap(), vec![10, -12, -49]);
    assert_eq!(a.div(&b).unwrap().to_vec1().unwrap(), vec![2, 0, -1]);
    assert_eq!(a.maximum(&b).unwrap().to_vec1().unwrap(), vec![5, 4, 7]);
    assert_eq!(a.minimum(&b).unwrap().to_vec1().unwrap(), vec![2, -3, -7]);
}

#[test]
fn elementwise_unary_ops() {
    let a = Tensor::from_vec(vec![-4, 0, 3], &vec![3], &Device::Cpu).unwrap();
    assert_eq!(a.neg().unwrap().to_vec1().unwrap(), vec![4, 0, -3]);
    assert_eq!(a.abs().unwrap().to_vec1().unwrap(), vec![4, 0, 3]);
    assert_eq!(a.sqr().unwrap().to_vec1().unwrap(), vec![16, 0, 9]);
    assert_eq!(a.relu().unwrap().to_vec1().unwrap(), vec![0, 0, 3]);
}

#[test]
fn comparisons_yield_u8_indicators() {
    let a = Tensor::from_vec(vec![1, 2, 3], &vec![3], &Device::Cpu).unwrap();
    let b = Tensor::from_vec(vec![2, 2, 2], &vec![3], &Device::Cpu).unwrap();
    let e = a.eq(&b).unwrap();
    assert_eq!(e.dtype(), DType::U8);
    assert_eq!(e.to_vec1().unwrap(), vec![0, 1, 0]);
    assert_eq!(a.ne(&b).unwrap().to_vec1().unwrap(), vec![1, 0, 1]);
    assert_eq!(a.lt(&b).unwrap().to_vec1().unwrap(), vec![1, 0, 0]);
    assert_eq!(a.gt(&b).unwrap().to_vec1().unwrap(), vec![0, 0, 1]);
    assert_eq!(a.ge(&b).unwrap().to_vec1().unwrap(), vec![0, 1, 1]);
    assert_eq!(a.le(&b).unwrap().to_vec1().unwrap(), vec![1, 1, 0]);
}

#[test]
fn where_cond_selects_by_nonzero() {
    let c = Tensor::from_vec(vec![1, 0, 2], &vec![3], &Device::Cpu).unwrap();
    let t = Tensor::from_vec(vec![10, 20, 30], &vec![3], &Device::Cpu).unwrap();
    let f = Tensor::from_vec(vec![-1, -2, -3], &vec![3], &Device::Cpu).unwrap();
    let r = c.where_cond(&t, &f).unwrap();
    assert_eq!(r.to_vec1().unwrap(), vec![10, -2, 30]);
}

#[test]
fn to_dtype_truncates_into_narrow_types() {
    let t = Tensor::from_vec(vec![300, -1, 255], &vec![3], &Device::Cpu).unwrap();
    let u8t = t.to_dtype(DType::U8).unwrap();
    assert_eq!(u8t.dtype(), DType::U8);
    assert_eq!(u8t.to_vec1().unwrap(), vec![44, 255, 255]);
    let u32t = t.to_dtype(DType::U32).unwrap();
    assert_eq!(u32t.to_vec1().unwrap(), vec![300, 4294967295, 255]);
}

#[test]
fn narrow_takes_a_middle_slice() {
    let t = t2x3();
    let n = t.narrow(0, 1, 2).unwrap();
    assert_eq!(n.dims(), &vec![2, 2]);
    assert_eq!(n.to_vec2().unwrap(), vec![vec![2, 3], vec![4, 5]]);
}

#[test]
fn permute_rearranges_axes() {
    let t = Tensor::arange(0, 24, &Device::Cpu)
        .unwrap()
        .reshape(&vec![2, 3, 4])
        .unwrap();
    let p = t.permute(&vec![2, 0, 1]).unwrap();
    assert_eq!(p.dims(), &vec![4, 2, 3]);
    let back = p.permute(&vec![1, 2, 0]).unwrap();
    assert_eq!(back.dims(), t.dims());
    assert_eq!(back.to_vec3().unwrap(), t.to_vec3().unwrap());
}

#[test]
fn squeeze_unsqueeze_roundtrip() {
    let t = Tensor::from_vec(vec![1, 2, 3], &vec![3], &Device::Cpu).unwrap();
    let u = t.unsqueeze(0).unwrap();
    assert_eq!(u.dims(), &vec![1, 3]);
    let s = u.squeeze(0).unwrap();
    assert_eq!(s.dims(), &vec![3]);
    assert_eq!(s.to_vec1().unwrap(), vec![1, 2, 3]);
}

#[test]
fn flatten_joins_axes() {
    let t = Tensor::arange(0, 24, &Device::Cpu)
        .unwrap()
        .reshape(&vec![2, 3, 4])
        .unwrap();
    let f = t.flatten(0, 1).unwrap();
    assert_eq!(f.dims(), &vec![6, 4]);
    let fa = t.flatten_all().unwrap();
    assert_eq!(fa.dims(), &vec![24]);
    assert_eq!(fa.to_vec1().unwrap(), (0..24).collect::<Vec<i64>>());
    let ft = t.flatten_to(1).unwrap();
    assert_eq!(ft.dims(), &vec![6, 4]);
    let ff = t.flatten_from(1).unwrap();
    assert_eq!(ff.dims(), &vec![2, 12]);
}

#[test]
fn get_picks_a_row() {
    let t = t2x3();
    assert_eq!(t.get(0).unwrap().to_vec1().unwrap(), vec![0, 1]);
    assert_eq!(t.get(2).unwrap().to_vec1().unwrap(), vec![4, 5]);
    assert!(t.get(3).is_err());
}

#[test]
fn index_select_gathers_rows() {
    let t = t2x3();
    let ids = Tensor::from_vec(vec![0, 0, 2], &vec![3], &Device::Cpu).unwrap();
    let r = t.index_select(&ids, 0).unwrap();
    assert_eq!(
        r.to_vec2().unwrap(),
        vec![vec![0, 1], vec![0, 1], vec![4, 5]]
    );
}

#[test]
fn gather_reads_by_index_tensor() {
    let t = t2x3();
    let idx = Tensor::from_vec(vec![1, 0, 0, 1, 1, 0], &vec![3, 2], &Device::Cpu).unwrap();
    let g = t.gather(&idx, 1).unwrap();
    assert_eq!(
        g.to_vec2().unwrap(),
        vec![vec![1, 0], vec![2, 3], vec![5, 4]]
    );
}

#[test]
fn scatter_add_accumulates() {
    let base = Tensor::zeros(&vec![2, 2], DType::I64, &Device::Cpu)
        .unwrap()
        .contiguous()
        .unwrap();
    let idx = Tensor::from_vec(vec![0, 0, 1, 0], &vec![2, 2], &Device::Cpu).unwrap();
    let src = Tensor::from_vec(vec![1, 2, 3, 4], &vec![2, 2], &Device::Cpu).unwrap();
    let r = base.scatter_add(&idx, &src, 1).unwrap();
    assert_eq!(r.to_vec2().unwrap(), vec![vec![3, 0], vec![4, 3]]);
}

#[test]
fn index_add_accumulates_rows() {
    let base = Tensor::zeros(&vec![3, 2], DType::I64, &Device::Cpu)
        .unwrap()
        .contiguous()
        .unwrap();
    let ids = Tensor::from_vec(vec![2, 0, 2], &vec![3], &Device::Cpu).unwrap();
    let src = Tensor::from_vec(vec![1, 2, 3, 4, 5, 6], &vec![3, 2], &Device::Cpu).unwrap();
    let r = base.index_add(&ids, &src, 0).unwrap();
    assert_eq!(
        r.to_vec2().unwrap(),
        vec![vec![3, 4], vec![0, 0], vec![6, 8]]
    );
}

#[test]
fn max_min_reductions() {
    let t = t2x3();
    assert_eq!(
        t.max_keepdim(0).unwrap().to_vec2().unwrap(),
        vec![vec![4, 5]]
    );
    assert_eq!(t.max(0).unwrap().to_vec1().unwrap(), vec![4, 5]);
    assert_eq!(t.min(0).unwrap().to_vec1().unwrap(), vec![0, 1]);
    assert_eq!(t.argmin(0).unwrap().to_vec1().unwrap(), vec![0, 0]);
}

#[test]
fn mean_divides_by_count() {
    let t = t2x3();
    let m = t.mean_keepdim(&vec![0]).unwrap();
    assert_eq!(m.to_vec2().unwrap(), vec![vec![2, 3]]);
    let ms = t.mean(&vec![0]).unwrap();
    assert_eq!(ms.to_vec1().unwrap(), vec![2, 3]);
}

#[test]
fn arange_and_steps() {
    let t = Tensor::arange(3, 7, &Device::Cpu).unwrap();
    assert_eq!(t.to_vec1().unwrap(), vec![3, 4, 5, 6]);
    let s = Tensor::arange_step(0, 7, 3, &Device::Cpu).unwrap();
    assert_eq!(s.to_vec1().unwrap(), vec![0, 3, 6]);
    let e = Tensor::arange(5, 5, &Device::Cpu).unwrap();
    assert_eq!(e.to_vec1().unwrap(), Vec::<i64>::new());
}

#[test]
fn rand_values_stay_in_range() {
    let t = Tensor::rand(-5, 5, &vec![4, 4], &Device::Cpu).unwrap();
    for row in t.to_vec2().unwrap() {
        for v in row {
            assert!((-5..5).contains(&v));
        }
    }
}

#[test]
fn constructors_and_getters() {
    let t = Tensor::new(vec![9, 8, 7], &Device::Cpu).unwrap();
    assert_eq!(t.rank(), 1);
    assert_eq!(t.elem_count(), 3);
    assert_eq!(t.dtype(), DType::I64);
    assert_eq!(*t.device(), Device::Cpu);
    assert!(!t.is_variable());
    assert_eq!(t.shape().dims(), &vec![3]);
    assert_eq!(t.dim(0).unwrap(), 3);
    assert!(t.dim(1).is_err());
    assert!(t.is_contiguous());
    assert_eq!(t.stride(), &vec![1]);
    assert_eq!(t.layout().start_offset(), 0);
    let f = Tensor::from_iter(vec![1, 2], &Device::Cpu).unwrap();
    assert_eq!(f.to_vec1().unwrap(), vec![1, 2]);
    let s = Tensor::from_slice(&vec![1, 2, 3, 4], &vec![2, 2], &Device::Cpu).unwrap();
    assert_eq!(s.to_vec2().unwrap(), vec![vec![1, 2], vec![3, 4]]);
}

#[test]
fn variables_track_gradient_state() {
    let t = t2x3();
    let v = t.make_var().unwrap();
    assert!(v.is_variable());
    let d = v.detach().unwrap();
    assert!(!d.is_variable());
    let w = v.add(&v).unwrap();
    assert!(!w.is_variable());
}

#[test]
fn zero_copy_broadcast_of_scalar_fill() {
    let z = Tensor::zeros(&vec![4, 4], DType::I64, &Device::Cpu).unwrap();
    // the fill is a broadcast scalar: one stored element serves all cells
    assert!(!z.is_contiguous() || z.elem_count() <= 1);
    assert_eq!(z.stride(), &vec![0, 0]);
    assert_eq!(z.elem_count(), 16);
}

#[test]
fn error_variants_are_reported() {
    let t = t2x3();
    // shape mismatch building a tensor
    assert!(matches!(
        Tensor::from_vec(vec![1, 2, 3], &vec![2, 2], &Device::Cpu),
        Err(Error::ShapeMismatch { .. })
    ));
    // binary shape mismatch
    let u = Tensor::from_vec(vec![1, 2], &vec![2], &Device::Cpu).unwrap();
    assert!(matches!(
        t.add(&u),
        Err(Error::ShapeMismatchBinaryOp { .. })
    ));
    // dtype mismatch
    let b = t.to_dtype(DType::U8).unwrap();
    assert!(matches!(
        t.add(&b),
        Err(Error::DTypeMismatchBinaryOp { .. })
    ));
    // dimension out of range
    assert!(matches!(
        t.transpose(0, 5),
        Err(Error::DimOutOfRange { .. })
    ));
    // bad narrow bounds
    assert!(matches!(
        t.narrow(0, 2, 2),
        Err(Error::NarrowInvalidArgs { .. })
    ));
    // incompatible broadcast
    let v3 = Tensor::from_vec(vec![1, 2, 3], &vec![3], &Device::Cpu).unwrap();
    assert!(matches!(
        v3.broadcast_as(&vec![2, 2]),
        Err(Error::BroadcastIncompatibleShapes { .. })
    ));
    // not a permutation
    assert!(matches!(
        t.permute(&vec![0, 0]),
        Err(Error::InvalidPermutation { .. })
    ));
    // index out of range
    let ids = Tensor::from_vec(vec![7], &vec![1], &Device::Cpu).unwrap();
    assert!(matches!(
        t.index_select(&ids, 0),
        Err(Error::InvalidIndex { .. })
    ));
    // wrong rank
    assert!(matches!(
        t.to_scalar(),
        Err(Error::UnexpectedNumberOfDims { .. })
    ));
    // empty operand list
    assert!(matches!(
        Tensor::cat(&vec![], 0),
        Err(Error::OpRequiresAtLeastOneTensor { .. })
    ));
    // concatenation shape mismatch
    let w = Tensor::from_vec(vec![1, 2, 3], &vec![1, 3], &Device::Cpu).unwrap();
    assert!(matches!(
        Tensor::cat(&vec![t.clone(), w], 0),
        Err(Error::ShapeMismatchCat { .. })
    ));
    assert_eq!(
        Error::OpRequiresAtLeastOneTensor { op: "cat" }.describe(),
        "at least one tensor is required"
    );
}

#[test]
fn wrapping_arithmetic_in_dtype() {
    let a = Tensor::from_vec(vec![i64::MAX], &vec![1], &Device::Cpu).unwrap();
    let b = Tensor::from_vec(vec![1], &vec![1], &Device::Cpu).unwrap();
    let s = a.add(&b).unwrap();
    assert_eq!(s.to_vec1().unwrap(), vec![i64::MIN]);
    // u8 arithmetic wraps at 256
    let x = Tensor::from_vec(vec![200], &vec![1], &Device::Cpu)
        .unwrap()
        .to_dtype(DType::U8)
        .unwrap();
    let y = Tensor::from_vec(vec![100], &vec![1], &Device::Cpu)
        .unwrap()
        .to_dtype(DType::U8)
        .unwrap();
    assert_eq!(x.add(&y).unwrap().to_vec1().unwrap(), vec![44]);
}

#[test]
fn to_device_keeps_values() {
    let t = t2x3();
    let m = t.to_device(&Device::Cpu).unwrap();
    assert!(t.same_storage(&m));
    assert_eq!(m.to_vec2().unwrap(), t.to_vec2().unwrap());
}

#[test]
fn copy_preserves_values_and_layout() {
    let t = t2x3().transpose(0, 1).unwrap();
    let c = t.copy().unwrap();
    assert_eq!(c.dims(), t.dims());
    assert_eq!(c.to_vec2().unwrap(), t.to_vec2().unwrap());
    assert!(!c.same_storage(&t));
    assert!(c.is_fortran_contiguous());
}

#[test]
fn to_vec3_reads_planes() {
    let t = Tensor::arange(0, 8, &Device::Cpu)
        .unwrap()
        .reshape(&vec![2, 2, 2])
        .unwrap();
    assert_eq!(
        t.to_vec3().unwrap(),
        vec![
            vec![vec![0, 1], vec![2, 3]],
            vec![vec![4, 5], vec![6, 7]]
        ]
    );
}

#[test]
fn broadcast_left_prepends_axes() {
    let t = Tensor::from_vec(vec![1, 2], &vec![2], &Device::Cpu).unwrap();
    let b = t.broadcast_left(&vec![3]).unwrap();
    assert_eq!(b.dims(), &vec![3, 2]);
    assert_eq!(
        b.to_vec2().unwrap(),
        vec![vec![1, 2], vec![1, 2], vec![1, 2]]
    );
    let e = t.expand(&vec![2, 2]).unwrap();
    assert_eq!(e.to_vec2().unwrap(), vec![vec![1, 2], vec![1, 2]]);
}

#[test]
fn stack_inserts_a_fresh_axis() {
    let a = Tensor::from_vec(vec![1, 2, 3], &vec![3], &Device::Cpu).unwrap();
    let b = Tensor::from_vec(vec![4, 5, 6], &vec![3], &Device::Cpu).unwrap();
    let s0 = Tensor::stack(&vec![a.clone(), b.clone()], 0).unwrap();
    assert_eq!(s0.dims(), &vec![2, 3]);
    assert_eq!(s0.to_vec2().unwrap(), vec![vec![1, 2, 3], vec![4, 5, 6]]);
    let s1 = Tensor::stack(&vec![a, b], 1).unwrap();
    assert_eq!(s1.dims(), &vec![3, 2]);
    assert_eq!(
        s1.to_vec2().unwrap(),
        vec![vec![1, 4], vec![2, 5], vec![3, 6]]
    );
}

#[test]
fn pad_with_zeros_surrounds_the_data() {
    let t = Tensor::from_vec(vec![1, 2], &vec![2], &Device::Cpu).unwrap();
    let p = t.pad_with_zeros(0, 1, 2).unwrap();
    assert_eq!(p.to_vec1().unwrap(), vec![0, 1, 2, 0, 0]);
}

#[test]
fn chunk_splits_with_remainder_up_front() {
    let t = Tensor::arange(0, 7, &Device::Cpu).unwrap();
    let pieces = t.chunk(3, 0).unwrap();
    assert_eq!(pieces.len(), 3);
    assert_eq!(pieces[0].to_vec1().unwrap(), vec![0, 1, 2]);
    assert_eq!(pieces[1].to_vec1().unwrap(), vec![3, 4]);
    assert_eq!(pieces[2].to_vec1().unwrap(), vec![5, 6]);
    // fewer chunks than requested when the dimension is short
    let small = Tensor::arange(0, 2, &Device::Cpu).unwrap();
    let ps = small.chunk(5, 0).unwrap();
    assert_eq!(ps.len(), 2);
    assert_eq!(ps[0].to_vec1().unwrap(), vec![0]);
}

#[test]
fn strided_enumeration_follows_the_layout() {
    let t = t2x3();
    assert_eq!(t.strided_index(), vec![0, 1, 2, 3, 4, 5]);
    let tr = t.transpose(0, 1).unwrap();
    assert_eq!(tr.strided_index(), vec![0, 2, 4, 1, 3, 5]);
    assert_eq!(t.strided_blocks(), vec![(0, 6)]);
    assert_eq!(
        tr.strided_blocks(),
        vec![(0, 1), (2, 1), (4, 1), (1, 1), (3, 1), (5, 1)]
    );
}

#[test]
fn upsample_nearest_doubles_pixels() {
    let t = Tensor::from_vec(vec![1, 2, 3, 4], &vec![1, 1, 2, 2], &Device::Cpu).unwrap();
    let u = t.upsample_nearest2d(4, 4).unwrap();
    assert_eq!(u.dims(), &vec![1, 1, 4, 4]);
    let planes = u
        .reshape(&vec![4, 4])
        .unwrap()
        .to_vec2()
        .unwrap();
    assert_eq!(
        planes,
        vec![
            vec![1, 1, 2, 2],
            vec![1, 1, 2, 2],
            vec![3, 3, 4, 4],
            vec![3, 3, 4, 4]
        ]
    );
}

#[test]
fn mean_all_style_reduction_via_sum() {
    let t = t2x3();
    let total = t.sum_all().unwrap().to_scalar().unwrap();
    assert_eq!(total, 15);
    let count = t.elem_count() as i64;
    assert_eq!(total / count, 2);
}

#[test]
fn mean_all_truncates_toward_zero() {
    let t = Tensor::from_vec(vec![1, 2, 3, 5], &vec![2, 2], &Device::Cpu).unwrap();
    let m = t.mean_all().unwrap();
    assert_eq!(m.to_scalar().unwrap(), 2);
}

#[test]
fn repeat_tiles_each_axis() {
    let t = Tensor::from_vec(vec![1, 2, 3, 4], &vec![2, 2], &Device::Cpu).unwrap();
    let r = t.repeat(&vec![2, 3]).unwrap();
    assert_eq!(r.dims(), &vec![4, 6]);
    assert_eq!(
        r.to_vec2().unwrap(),
        vec![
            vec![1, 2, 1, 2, 1, 2],
            vec![3, 4, 3, 4, 3, 4],
            vec![1, 2, 1, 2, 1, 2],
            vec![3, 4, 3, 4, 3, 4],
        ]
    );
}

#[test]
fn repeat_adds_leading_axes() {
    let t = Tensor::from_vec(vec![5, 6], &vec![2], &Device::Cpu).unwrap();
    let r = t.repeat(&vec![3, 2]).unwrap();
    assert_eq!(r.dims(), &vec![3, 4]);
    assert_eq!(
        r.to_vec2().unwrap(),
        vec![vec![5, 6, 5, 6], vec![5, 6, 5, 6], vec![5, 6, 5, 6]]
    );
}

#[test]
fn repeat_short_count_list_keeps_trailing_axes() {
    let t = Tensor::from_vec(vec![1, 2, 3, 4], &vec![2, 2], &Device::Cpu).unwrap();
    let r = t.repeat(&vec![2]).unwrap();
    assert_eq!(r.dims(), &vec![4, 2]);
    assert_eq!(
        r.to_vec2().unwrap(),
        vec![vec![1, 2], vec![3, 4], vec![1, 2], vec![3, 4]]
    );
}

#[test]
fn broadcast_matmul_broadcasts_batches() {
    // lhs batch of one against rhs batch of two.
    let a = Tensor::from_vec(vec![1, 2, 3, 4, 5, 6], &vec![1, 2, 3], &Device::Cpu).unwrap();
    let b = Tensor::from_vec(
        vec![1, 0, 0, 1, 1, 1, 2, 0, 0, 2, 2, 2],
        &vec![2, 3, 2],
        &Device::Cpu,
    )
    .unwrap();
    let c = a.broadcast_matmul(&b).unwrap();
    assert_eq!(c.dims(), &vec![2, 2, 2]);
    let plain_first = a
        .reshape(&vec![2, 3])
        .unwrap()
        .matmul(&b.narrow(0, 0, 1).unwrap().reshape(&vec![3, 2]).unwrap())
        .unwrap();
    assert_eq!(
        c.to_vec3().unwrap()[0],
        plain_first.to_vec2().unwrap()
    );
    assert_eq!(
        c.to_vec3().unwrap(),
        vec![
            vec![vec![4, 5], vec![10, 11]],
            vec![vec![8, 10], vec![20, 22]],
        ]
    );
}

#[test]
fn broadcast_matmul_rejects_bad_inner_dim() {
    let a = Tensor::from_vec(vec![1, 2, 3, 4], &vec![2, 2], &Device::Cpu).unwrap();
    let b = Tensor::from_vec(vec![1, 2, 3, 4, 5, 6], &vec![3, 2], &Device::Cpu).unwrap();
    assert!(matches!(
        a.broadcast_matmul(&b),
        Err(Error::ShapeMismatchBinaryOp { .. })
    ));
}

#[test]
fn max_pool2d_takes_window_maxima() {
    let t = Tensor::from_vec(
        vec![1, 2, 3, 4, 5, 6, 7, 8, 9, 10, 11, 12, 13, 14, 15, 16],
        &vec![1, 1, 4, 4],
        &Device::Cpu,
    )
    .unwrap();
    let p = t.max_pool2d(2).unwrap();
    assert_eq!(p.dims(), &vec![1, 1, 2, 2]);
    assert_eq!(p.flatten_all().unwrap().to_vec1().unwrap(), vec![6, 8, 14, 16]);
}

#[test]
fn avg_pool2d_truncates_window_means() {
    let t = Tensor::from_vec(
        vec![1, 2, 3, 4, 5, 6, 7, 8, 9, 10, 11, 12, 13, 14, 15, 16],
        &vec![1, 1, 4, 4],
        &Device::Cpu,
    )
    .unwrap();
    let p = t.avg_pool2d(2).unwrap();
    assert_eq!(p.dims(), &vec![1, 1, 2, 2]);
    // window sums 14, 22, 46, 54 divided by 4, truncating.
    assert_eq!(p.flatten_all().unwrap().to_vec1().unwrap(), vec![3, 5, 11, 13]);
}

#[test]
fn max_pool2d_with_stride_overlapping_windows() {
    let t = Tensor::from_vec(
        vec![9, 1, 2, 3, 4, 5, 6, 7, 8],
        &vec![1, 1, 3, 3],
        &Device::Cpu,
    )
    .unwrap();
    let p = t.max_pool2d_with_stride((2, 2), (1, 1)).unwrap();
    assert_eq!(p.dims(), &vec![1, 1, 2, 2]);
    assert_eq!(p.flatten_all().unwrap().to_vec1().unwrap(), vec![9, 5, 7, 8]);
}

#[test]
fn avg_pool2d_with_stride_rejects_non_4d() {
    let t = Tensor::from_vec(vec![1, 2, 3, 4], &vec![2, 2], &Device::Cpu).unwrap();
    assert!(matches!(
        t.avg_pool2d_with_stride((1, 1), (1, 1)),
        Err(Error::UnexpectedNumberOfDims { .. })
    ));
}

#[test]
fn cat_of_one_tensor_shares_storage() {
    let t = t2x3();
    let c = Tensor::cat(&vec![t.clone()], 1).unwrap();
    assert!(t.same_storage(&c));
    assert_eq!(c.to_vec2().unwrap(), t.to_vec2().unwrap());
}

#[test]
fn pad_with_zeros_noop_shares_storage() {
    let t = t2x3();
    let p = t.pad_with_zeros(0, 0, 0).unwrap();
    assert!(t.same_storage(&p));
    assert_eq!(p.to_vec2().unwrap(), t.to_vec2().unwrap());
}

#[test]
fn flatten_of_scalar_gives_one_element_vector() {
    let t = Tensor::from_vec(vec![7], &vec![], &Device::Cpu).unwrap();
    let f = t.flatten(0, 0).unwrap();
    assert_eq!(f.dims(), &vec![1]);
    assert_eq!(f.to_vec1().unwrap(), vec![7]);
    let fa = t.flatten_all().unwrap();
    assert_eq!(fa.to_vec1().unwrap(), vec![7]);
}

#[test]
fn max_on_bad_dim_is_an_error() {
    let t = t2x3();
    assert!(matches!(t.max(5), Err(Error::DimOutOfRange { .. })));
    assert!(matches!(t.argmax(2), Err(Error::DimOutOfRange { .. })));
}

#[test]
fn arange_step_empty_when_start_at_end() {
    let s = Tensor::arange_step(5, 3, 1, &Device::Cpu).unwrap();
    assert_eq!(s.dims(), &vec![0]);
    assert_eq!(s.to_vec1().unwrap(), Vec::<i64>::new());
}

#[test]
fn strided_blocks_coalesces_contiguous_tail() {
    let t = Tensor::from_vec(vec![0, 1, 2, 3, 4, 5, 6, 7], &vec![2, 2, 2], &Device::Cpu).unwrap();
    let tr = t.transpose(0, 1).unwrap();
    // the last axis stays row-major, so runs of length two survive the swap.
    assert_eq!(tr.strided_blocks(), vec![(0, 2), (4, 2), (2, 2), (6, 2)]);
}

use geomath::dim2::Mat2;
use geomath::dim2::Vec2;
use geomath::dim4::Mat4;
use geomath::dim4::Vec4;

#[test]
fn vec2_ops() {
    let a = Vec2::from_components(3, -4);
    let b = Vec2::from_array([10, 2]);
    assert_eq!(a.x(), 3);
    assert_eq!(a.y(), -4);
    assert_eq!(a.add(b), Vec2 { x: 13, y: -2 });
    assert_eq!(a.sub(b), Vec2 { x: -7, y: -6 });
    assert_eq!(a.neg(), Vec2 { x: -3, y: 4 });
    assert_eq!(a.component_mul(b), Vec2 { x: 30, y: -8 });
    assert_eq!(Vec2::splat(5), Vec2 { x: 5, y: 5 });
    assert_eq!(a.into_array(), [3, -4]);
    assert_eq!(a.length_squared(), 25);
}

#[test]
fn mat2_ops() {
    let m = Mat2::from_array(&[1, 2, 3, 4]);
    assert_eq!(m.into_rows(), [[1, 2], [3, 4]]);
    assert_eq!(m.transpose().into_array(), [1, 3, 2, 4]);
    assert_eq!(Mat2::identity().into_array(), [1, 0, 0, 1]);
    let n = Mat2::from_rows(&[[10, 20], [30, 40]]);
    assert_eq!(m.add(n).into_array(), [11, 22, 33, 44]);
    assert_eq!(n.sub(m).into_array(), [9, 18, 27, 36]);
    assert_eq!(m.neg().into_array(), [-1, -2, -3, -4]);
}

#[test]
fn mat2_vec_mul() {
    // Row vector times row-major matrix.
    let m = Mat2::from_rows(&[[1, 2], [3, 4]]);
    let v = Vec2::from_components(5, 6);
    // (5*1 + 6*3, 5*2 + 6*4) == (23, 34)
    assert_eq!(Mat2::vec_mul(v, m), Vec2 { x: 23, y: 34 });
    // Multiplying by the identity changes nothing.
    assert_eq!(Mat2::vec_mul(v, Mat2::identity()), v);
}

#[test]
fn vec4_ops() {
    let a = Vec4::from_components(1, 2, 3, 4);
    let b = Vec4::from_array([10, 20, 30, 40]);
    assert_eq!((a.x(), a.y(), a.z(), a.w()), (1, 2, 3, 4));
    assert_eq!(a.add(b), Vec4 { x: 11, y: 22, z: 33, w: 44 });
    assert_eq!(b.sub(a), Vec4 { x: 9, y: 18, z: 27, w: 36 });
    assert_eq!(a.neg(), Vec4 { x: -1, y: -2, z: -3, w: -4 });
    assert_eq!(a.component_mul(b), Vec4 { x: 10, y: 40, z: 90, w: 160 });
    assert_eq!(Vec4::splat(9).into_array(), [9, 9, 9, 9]);
}

#[test]
fn mat4_ops() {
    let seq: [i64; 16] = [1, 2, 3, 4, 5, 6, 7, 8, 9, 10, 11, 12, 13, 14, 15, 16];
    let m = Mat4::from_array(&seq);
    assert_eq!(m.into_array(), seq);
    assert_eq!(
        m.transpose().into_array(),
        [1, 5, 9, 13, 2, 6, 10, 14, 3, 7, 11, 15, 4, 8, 12, 16]
    );
    assert_eq!(
        Mat4::identity().into_rows(),
        [[1, 0, 0, 0], [0, 1, 0, 0], [0, 0, 1, 0], [0, 0, 0, 1]]
    );
    let sum = m.add(m);
    assert_eq!(sum.into_array().to_vec(), seq.iter().map(|x| 2 * x).collect::<Vec<_>>());
    assert_eq!(sum.sub(m).into_array(), seq);
    assert_eq!(m.neg().into_array().to_vec(), seq.iter().map(|x| -x).collect::<Vec<_>>());
}

#[test]
fn mat4_vec_mul() {
    let m = Mat4::from_rows(&[
        [1, 0, 0, 0],
        [0, 1, 0, 0],
        [0, 0, 1, 0],
        [10, 20, 30, 1],
    ]);
    // A translation-style matrix applied to a point row vector.
    let p = Vec4::from_components(1, 2, 3, 1);
    assert_eq!(Mat4::vec_mul(p, m), Vec4 { x: 11, y: 22, z: 33, w: 1 });
    assert_eq!(Mat4::vec_mul(p, Mat4::identity()), p);
}

use voxtree::math::{Matrix, Vector};

#[test]
fn accessors() {
    let v: Vector<i64, 4> = Vector([10, 20, 30, 40]);
    assert_eq!(v.x(), 10);
    assert_eq!(v.y(), 20);
    assert_eq!(v.z(), 30);
    assert_eq!(v.w(), 40);
    let mut m = v;
    *m.y_mut() = 99;
    assert_eq!(m.y(), 99);
    assert_eq!(m.x(), 10);
}

#[test]
fn dot_and_cross() {
    let a: Vector<i64, 3> = Vector([1, 2, 3]);
    let b: Vector<i64, 3> = Vector([4, 5, 6]);
    assert_eq!(a.dot(b), 32);
    assert_eq!(a.cross(b), Vector([-3, 6, -3]));
}

#[test]
fn transpose_and_product() {
    let m: Matrix<i64, 2, 2> = Matrix([[1, 3], [2, 4]]);
    let t = m.transpose();
    assert_eq!(t, Matrix([[1, 2], [3, 4]]));
    let mut sq = m;
    sq.transpose_inplace();
    assert_eq!(sq, t);
    let id: Matrix<i64, 2, 2> = Matrix([[1, 0], [0, 1]]);
    assert_eq!(m.dot(&id), m);
    let v: Vector<i64, 2> = Vector([1, 1]);
    assert_eq!(m.dotv(v), Vector([3, 7]));
    let mut p = m;
    p.dot_assign(&id);
    assert_eq!(p, m);
}

#[test]
fn transpose_rectangular() {
    let m: Matrix<i64, 2, 3> = Matrix([[1, 4], [2, 5], [3, 6]]);
    assert_eq!(m.transpose(), Matrix([[1, 2, 3], [4, 5, 6]]));
}

//! Four-dimensional vector and matrix types over `i64` scalars.

use vstd::prelude::*;

verus! {

/// A 4D vector with integer components.
#[derive(Clone, Copy, Debug, PartialEq, Eq, Structural)]
pub struct Vec4 {
    pub x: i64,
    pub y: i64,
    pub z: i64,
    pub w: i64,
}

/// A 4x4 matrix stored in row-major order.
#[derive(Clone, Copy, Debug, PartialEq, Eq)]
pub struct Mat4 {
    pub rows: [[i64; 4]; 4],
}

impl Vec4 {
    pub fn from_components(x: i64, y: i64, z: i64, w: i64) -> (r: Self)
        ensures
            r == (Vec4 { x, y, z, w }),
    {
        Vec4 { x, y, z, w }
    }

    pub fn from_array(coords: [i64; 4]) -> (r: Self)
        ensures
            r == (Vec4 { x: coords[0], y: coords[1], z: coords[2], w: coords[3] }),
    {
        Vec4 { x: coords[0], y: coords[1], z: coords[2], w: coords[3] }
    }

    pub fn into_array(self) -> (r: [i64; 4])
        ensures
            r[0] == self.x,
            r[1] == self.y,
            r[2] == self.z,
            r[3] == self.w,
    {
        [self.x, self.y, self.z, self.w]
    }

    pub fn x(self) -> (r: i64)
        ensures
            r == self.x,
    {
        self.x
    }

    pub fn y(self) -> (r: i64)
        ensures
            r == self.y,
    {
        self.y
    }

    pub fn z(self) -> (r: i64)
        ensures
            r == self.z,
    {
        self.z
    }

    pub fn w(self) -> (r: i64)
        ensures
            r == self.w,
    {
        self.w
    }

    pub fn splat(f: i64) -> (r: Self)
        ensures
            r == (Vec4 { x: f, y: f, z: f, w: f }),
    {
        Vec4 { x: f, y: f, z: f, w: f }
    }

    pub fn add(self, other: Self) -> (r: Self)
        requires
            i64::MIN <= self.x + other.x <= i64::MAX,
            i64::MIN <= self.y + other.y <= i64::MAX,
            i64::MIN <= self.z + other.z <= i64::MAX,
            i64::MIN <= self.w + other.w <= i64::MAX,
        ensures
            r.x == self.x + other.x,
            r.y == self.y + other.y,
            r.z == self.z + other.z,
            r.w == self.w + other.w,
    {
        Vec4 { x: self.x + other.x, y: self.y + other.y, z: self.z + other.z, w: self.w + other.w }
    }

    pub fn sub(self, other: Self) -> (r: Self)
        requires
            i64::MIN <= self.x - other.x <= i64::MAX,
            i64::MIN <= self.y - other.y <= i64::MAX,
            i64::MIN <= self.z - other.z <= i64::MAX,
            i64::MIN <= self.w - other.w <= i64::MAX,
        ensures
            r.x == self.x - other.x,
            r.y == self.y - other.y,
            r.z == self.z - other.z,
            r.w == self.w - other.w,
    {
        Vec4 { x: self.x - other.x, y: self.y - other.y, z: self.z - other.z, w: self.w - other.w }
    }

    pub fn neg(self) -> (r: Self)
        requires
            self.x != i64::MIN,
            self.y != i64::MIN,
            self.z != i64::MIN,
            self.w != i64::MIN,
        ensures
            r.x == -self.x,
            r.y == -self.y,
            r.z == -self.z,
            r.w == -self.w,
    {
        Vec4 { x: -self.x, y: -self.y, z: -self.z, w: -self.w }
    }

    pub fn component_mul(self, other: Self) -> (r: Self)
        requires
            i64::MIN <= self.x * other.x <= i64::MAX,
            i64::MIN <= self.y * other.y <= i64::MAX,
            i64::MIN <= self.z * other.z <= i64::MAX,
            i64::MIN <= self.w * other.w <= i64::MAX,
        ensures
            r.x == self.x * other.x,
            r.y == self.y * other.y,
            r.z == self.z * other.z,
            r.w == self.w * other.w,
    {
        Vec4 { x: self.x * other.x, y: self.y * other.y, z: self.z * other.z, w: self.w * other.w }
    }
}

impl Mat4 {
    pub fn from_rows(rows: &[[i64; 4]; 4]) -> (r: Self)
        ensures
            r.rows == *rows,
    {
        Mat4 { rows: *rows }
    }

    pub fn from_array(mat: &[i64; 16]) -> (r: Self)
        ensures
            r.rows[0][0] == mat[0],
            r.rows[0][1] == mat[1],
            r.rows[0][2] == mat[2],
            r.rows[0][3] == mat[3],
            r.rows[1][0] == mat[4],
            r.rows[1][1] == mat[5],
            r.rows[1][2] == mat[6],
            r.rows[1][3] == mat[7],
            r.rows[2][0] == mat[8],
            r.rows[2][1] == mat[9],
            r.rows[2][2] == mat[10],
            r.rows[2][3] == mat[11],
            r.rows[3][0] == mat[12],
            r.rows[3][1] == mat[13],
            r.rows[3][2] == mat[14],
            r.rows[3][3] == mat[15],
    {
        Mat4 {
            rows: [
                [mat[0], mat[1], mat[2], mat[3]],
                [mat[4], mat[5], mat[6], mat[7]],
                [mat[8], mat[9], mat[10], mat[11]],
                [mat[12], mat[13], mat[14], mat[15]],
            ],
        }
    }

    pub fn into_array(self) -> (r: [i64; 16])
        ensures
            r[0] == self.rows[0][0],
            r[1] == self.rows[0][1],
            r[2] == self.rows[0][2],
            r[3] == self.rows[0][3],
            r[4] == self.rows[1][0],
            r[5] == self.rows[1][1],
            r[6] == self.rows[1][2],
            r[7] == self.rows[1][3],
            r[8] == self.rows[2][0],
            r[9] == self.rows[2][1],
            r[10] == self.rows[2][2],
            r[11] == self.rows[2][3],
            r[12] == self.rows[3][0],
            r[13] == self.rows[3][1],
            r[14] == self.rows[3][2],
            r[15] == self.rows[3][3],
    {
        [
            self.rows[0][0], self.rows[0][1], self.rows[0][2], self.rows[0][3], self.rows[1][0], self.rows[1][1], self.rows[1][2], self.rows[1][3], self.rows[2][0], self.rows[2][1], self.rows[2][2], self.rows[2][3], self.rows[3][0], self.rows[3][1], self.rows[3][2], self.rows[3][3],
        ]
    }

    pub fn into_rows(self) -> (r: [[i64; 4]; 4])
        ensures
            r == self.rows,
    {
        self.rows
    }

    pub fn transpose(self) -> (r: Self)
        ensures
            forall|i: int, j: int|
                0 <= i < 4 && 0 <= j < 4 ==> #[trigger] r.rows[i][j] == self.rows[j][i],
    {
        Mat4 {
            rows: [
                [self.rows[0][0], self.rows[1][0], self.rows[2][0], self.rows[3][0]],
                [self.rows[0][1], self.rows[1][1], self.rows[2][1], self.rows[3][1]],
                [self.rows[0][2], self.rows[1][2], self.rows[2][2], self.rows[3][2]],
                [self.rows[0][3], self.rows[1][3], self.rows[2][3], self.rows[3][3]],
            ],
        }
    }

    pub fn identity() -> (r: Self)
        ensures
            r.rows[0][0] == 1 && r.rows[0][1] == 0 && r.rows[0][2] == 0 && r.rows[0][3] == 0,
            r.rows[1][0] == 0 && r.rows[1][1] == 1 && r.rows[1][2] == 0 && r.rows[1][3] == 0,
            r.rows[2][0] == 0 && r.rows[2][1] == 0 && r.rows[2][2] == 1 && r.rows[2][3] == 0,
            r.rows[3][0] == 0 && r.rows[3][1] == 0 && r.rows[3][2] == 0 && r.rows[3][3] == 1,
    {
        Mat4 {
            rows: [
                [1, 0, 0, 0],
                [0, 1, 0, 0],
                [0, 0, 1, 0],
                [0, 0, 0, 1],
            ],
        }
    }

    pub fn add(self, other: Self) -> (r: Self)
        requires
            forall|i: int, j: int|
                0 <= i < 4 && 0 <= j < 4 ==> i64::MIN <= #[trigger] (self.rows[i][j]
                    + other.rows[i][j]) <= i64::MAX,
        ensures
            forall|i: int, j: int|
                0 <= i < 4 && 0 <= j < 4 ==> #[trigger] r.rows[i][j] == self.rows[i][j]
                    + other.rows[i][j],
    {
        Mat4 {
            rows: [
                [self.rows[0][0] + other.rows[0][0], self.rows[0][1] + other.rows[0][1], self.rows[0][2] + other.rows[0][2], self.rows[0][3] + other.rows[0][3]],
                [self.rows[1][0] + other.rows[1][0], self.rows[1][1] + other.rows[1][1], self.rows[1][2] + other.rows[1][2], self.rows[1][3] + other.rows[1][3]],
                [self.rows[2][0] + other.rows[2][0], self.rows[2][1] + other.rows[2][1], self.rows[2][2] + other.rows[2][2], self.rows[2][3] + other.rows[2][3]],
                [self.rows[3][0] + other.rows[3][0], self.rows[3][1] + other.rows[3][1], self.rows[3][2] + other.rows[3][2], self.rows[3][3] + other.rows[3][3]],
            ],
        }
    }

    pub fn sub(self, other: Self) -> (r: Self)
        requires
            forall|i: int, j: int|
                0 <= i < 4 && 0 <= j < 4 ==> i64::MIN <= #[trigger] (self.rows[i][j]
                    - other.rows[i][j]) <= i64::MAX,
        ensures
            forall|i: int, j: int|
                0 <= i < 4 && 0 <= j < 4 ==> #[trigger] r.rows[i][j] == self.rows[i][j]
                    - other.rows[i][j],
    {
        Mat4 {
            rows: [
                [self.rows[0][0] - other.rows[0][0], self.rows[0][1] - other.rows[0][1], self.rows[0][2] - other.rows[0][2], self.rows[0][3] - other.rows[0][3]],
                [self.rows[1][0] - other.rows[1][0], self.rows[1][1] - other.rows[1][1], self.rows[1][2] - other.rows[1][2], self.rows[1][3] - other.rows[1][3]],
                [self.rows[2][0] - other.rows[2][0], self.rows[2][1] - other.rows[2][1], self.rows[2][2] - other.rows[2][2], self.rows[2][3] - other.rows[2][3]],
                [self.rows[3][0] - other.rows[3][0], self.rows[3][1] - other.rows[3][1], self.rows[3][2] - other.rows[3][2], self.rows[3][3] - other.rows[3][3]],
            ],
        }
    }

    pub fn neg(self) -> (r: Self)
        requires
            forall|i: int, j: int|
                0 <= i < 4 && 0 <= j < 4 ==> #[trigger] self.rows[i][j] != i64::MIN,
        ensures
            forall|i: int, j: int|
                0 <= i < 4 && 0 <= j < 4 ==> #[trigger] r.rows[i][j] == -self.rows[i][j],
    {
        Mat4 {
            rows: [
                [-self.rows[0][0], -self.rows[0][1], -self.rows[0][2], -self.rows[0][3]],
                [-self.rows[1][0], -self.rows[1][1], -self.rows[1][2], -self.rows[1][3]],
                [-self.rows[2][0], -self.rows[2][1], -self.rows[2][2], -self.rows[2][3]],
                [-self.rows[3][0], -self.rows[3][1], -self.rows[3][2], -self.rows[3][3]],
            ],
        }
    }

    /// Row-vector times matrix: the `j`-th output component is the dot
    /// product of `vec` with the `j`-th column of `this`.
    pub fn vec_mul(vec: Vec4, this: Mat4) -> (r: Vec4)
        requires
            i64::MIN <= vec.x * this.rows[0][0] <= i64::MAX,
            i64::MIN <= vec.y * this.rows[1][0] <= i64::MAX,
            i64::MIN <= vec.x * this.rows[0][0] + vec.y * this.rows[1][0] <= i64::MAX,
            i64::MIN <= vec.z * this.rows[2][0] <= i64::MAX,
            i64::MIN <= vec.x * this.rows[0][0] + vec.y * this.rows[1][0] + vec.z * this.rows[2][0] <= i64::MAX,
            i64::MIN <= vec.w * this.rows[3][0] <= i64::MAX,
            i64::MIN <= vec.x * this.rows[0][0] + vec.y * this.rows[1][0] + vec.z * this.rows[2][0] + vec.w * this.rows[3][0] <= i64::MAX,
            i64::MIN <= vec.x * this.rows[0][1] <= i64::MAX,
            i64::MIN <= vec.y * this.rows[1][1] <= i64::MAX,
            i64::MIN <= vec.x * this.rows[0][1] + vec.y * this.rows[1][1] <= i64::MAX,
            i64::MIN <= vec.z * this.rows[2][1] <= i64::MAX,
            i64::MIN <= vec.x * this.rows[0][1] + vec.y * this.rows[1][1] + vec.z * this.rows[2][1] <= i64::MAX,
            i64::MIN <= vec.w * this.rows[3][1] <= i64::MAX,
            i64::MIN <= vec.x * this.rows[0][1] + vec.y * this.rows[1][1] + vec.z * this.rows[2][1] + vec.w * this.rows[3][1] <= i64::MAX,
            i64::MIN <= vec.x * this.rows[0][2] <= i64::MAX,
            i64::MIN <= vec.y * this.rows[1][2] <= i64::MAX,
            i64::MIN <= vec.x * this.rows[0][2] + vec.y * this.rows[1][2] <= i64::MAX,
            i64::MIN <= vec.z * this.rows[2][2] <= i64::MAX,
            i64::MIN <= vec.x * this.rows[0][2] + vec.y * this.rows[1][2] + vec.z * this.rows[2][2] <= i64::MAX,
            i64::MIN <= vec.w * this.rows[3][2] <= i64::MAX,
            i64::MIN <= vec.x * this.rows[0][2] + vec.y * this.rows[1][2] + vec.z * this.rows[2][2] + vec.w * this.rows[3][2] <= i64::MAX,
            i64::MIN <= vec.x * this.rows[0][3] <= i64::MAX,
            i64::MIN <= vec.y * this.rows[1][3] <= i64::MAX,
            i64::MIN <= vec.x * this.rows[0][3] + vec.y * this.rows[1][3] <= i64::MAX,
            i64::MIN <= vec.z * this.rows[2][3] <= i64::MAX,
            i64::MIN <= vec.x * this.rows[0][3] + vec.y * this.rows[1][3] + vec.z * this.rows[2][3] <= i64::MAX,
            i64::MIN <= vec.w * this.rows[3][3] <= i64::MAX,
            i64::MIN <= vec.x * this.rows[0][3] + vec.y * this.rows[1][3] + vec.z * this.rows[2][3] + vec.w * this.rows[3][3] <= i64::MAX,
        ensures
            r.x == vec.x * this.rows[0][0] + vec.y * this.rows[1][0] + vec.z * this.rows[2][0] + vec.w * this.rows[3][0],
            r.y == vec.x * this.rows[0][1] + vec.y * this.rows[1][1] + vec.z * this.rows[2][1] + vec.w * this.rows[3][1],
            r.z == vec.x * this.rows[0][2] + vec.y * this.rows[1][2] + vec.z * this.rows[2][2] + vec.w * this.rows[3][2],
            r.w == vec.x * this.rows[0][3] + vec.y * this.rows[1][3] + vec.z * this.rows[2][3] + vec.w * this.rows[3][3],
    {
        Vec4 {
            x: vec.x * this.rows[0][0] + vec.y * this.rows[1][0] + vec.z * this.rows[2][0] + vec.w * this.rows[3][0],
            y: vec.x * this.rows[0][1] + vec.y * this.rows[1][1] + vec.z * this.rows[2][1] + vec.w * this.rows[3][1],
            z: vec.x * this.rows[0][2] + vec.y * this.rows[1][2] + vec.z * this.rows[2][2] + vec.w * this.rows[3][2],
            w: vec.x * this.rows[0][3] + vec.y * this.rows[1][3] + vec.z * this.rows[2][3] + vec.w * this.rows[3][3],
        }
    }
}

} // verus!

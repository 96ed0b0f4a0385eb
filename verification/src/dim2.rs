//! Two-dimensional vector and matrix types over `i64` scalars.

use vstd::prelude::*;

verus! {

/// A 2D vector with integer components.
#[derive(Clone, Copy, Debug, PartialEq, Eq, Structural)]
pub struct Vec2 {
    pub x: i64,
    pub y: i64,
}

/// A 2x2 matrix stored in row-major order.
#[derive(Clone, Copy, Debug, PartialEq, Eq)]
pub struct Mat2 {
    pub rows: [[i64; 2]; 2],
}

impl Vec2 {
    pub fn from_components(x: i64, y: i64) -> (r: Self)
        ensures
            r == (Vec2 { x, y }),
    {
        Vec2 { x, y }
    }

    pub fn from_array(coords: [i64; 2]) -> (r: Self)
        ensures
            r == (Vec2 { x: coords[0], y: coords[1] }),
    {
        Vec2 { x: coords[0], y: coords[1] }
    }

    pub fn into_array(self) -> (r: [i64; 2])
        ensures
            r[0] == self.x,
            r[1] == self.y,
    {
        [self.x, self.y]
    }

    pub fn x(self) -> (r: i64)
        ensures
            r == self.x,
    {
        self.x
    }

    pub fn y(self) -> (r: i64)
        ensures
            r == self.y,
    {
        self.y
    }

    pub fn splat(f: i64) -> (r: Self)
        ensures
            r == (Vec2 { x: f, y: f }),
    {
        Vec2 { x: f, y: f }
    }

    pub fn add(self, other: Self) -> (r: Self)
        requires
            i64::MIN <= self.x + other.x <= i64::MAX,
            i64::MIN <= self.y + other.y <= i64::MAX,
        ensures
            r.x == self.x + other.x,
            r.y == self.y + other.y,
    {
        Vec2 { x: self.x + other.x, y: self.y + other.y }
    }

    pub fn sub(self, other: Self) -> (r: Self)
        requires
            i64::MIN <= self.x - other.x <= i64::MAX,
            i64::MIN <= self.y - other.y <= i64::MAX,
        ensures
            r.x == self.x - other.x,
            r.y == self.y - other.y,
    {
        Vec2 { x: self.x - other.x, y: self.y - other.y }
    }

    pub fn neg(self) -> (r: Self)
        requires
            self.x != i64::MIN,
            self.y != i64::MIN,
        ensures
            r.x == -self.x,
            r.y == -self.y,
    {
        Vec2 { x: -self.x, y: -self.y }
    }

    pub fn component_mul(self, other: Self) -> (r: Self)
        requires
            i64::MIN <= self.x * other.x <= i64::MAX,
            i64::MIN <= self.y * other.y <= i64::MAX,
        ensures
            r.x == self.x * other.x,
            r.y == self.y * other.y,
    {
        Vec2 { x: self.x * other.x, y: self.y * other.y }
    }

    pub fn length_squared(self) -> (r: i64)
        requires
            i64::MIN <= self.x * self.x <= i64::MAX,
            i64::MIN <= self.y * self.y <= i64::MAX,
            i64::MIN <= self.x * self.x + self.y * self.y <= i64::MAX,
        ensures
            r == self.x * self.x + self.y * self.y,
    {
        self.x * self.x + self.y * self.y
    }
}

impl Mat2 {
    pub fn from_rows(rows: &[[i64; 2]; 2]) -> (r: Self)
        ensures
            r.rows == *rows,
    {
        Mat2 { rows: *rows }
    }

    pub fn from_array(mat: &[i64; 4]) -> (r: Self)
        ensures
            r.rows[0][0] == mat[0],
            r.rows[0][1] == mat[1],
            r.rows[1][0] == mat[2],
            r.rows[1][1] == mat[3],
    {
        Mat2 { rows: [[mat[0], mat[1]], [mat[2], mat[3]]] }
    }

    pub fn into_rows(self) -> (r: [[i64; 2]; 2])
        ensures
            r == self.rows,
    {
        self.rows
    }

    pub fn into_array(self) -> (r: [i64; 4])
        ensures
            r[0] == self.rows[0][0],
            r[1] == self.rows[0][1],
            r[2] == self.rows[1][0],
            r[3] == self.rows[1][1],
    {
        [self.rows[0][0], self.rows[0][1], self.rows[1][0], self.rows[1][1]]
    }

    pub fn transpose(self) -> (r: Self)
        ensures
            r.rows[0][0] == self.rows[0][0],
            r.rows[0][1] == self.rows[1][0],
            r.rows[1][0] == self.rows[0][1],
            r.rows[1][1] == self.rows[1][1],
    {
        Mat2 { rows: [[self.rows[0][0], self.rows[1][0]], [self.rows[0][1], self.rows[1][1]]] }
    }

    pub fn identity() -> (r: Self)
        ensures
            r.rows[0][0] == 1 && r.rows[0][1] == 0,
            r.rows[1][0] == 0 && r.rows[1][1] == 1,
    {
        Mat2 { rows: [[1, 0], [0, 1]] }
    }

    pub fn add(self, other: Self) -> (r: Self)
        requires
            forall|i: int, j: int|
                0 <= i < 2 && 0 <= j < 2 ==> i64::MIN <= #[trigger] (self.rows[i][j]
                    + other.rows[i][j]) <= i64::MAX,
        ensures
            forall|i: int, j: int|
                0 <= i < 2 && 0 <= j < 2 ==> #[trigger] r.rows[i][j] == self.rows[i][j]
                    + other.rows[i][j],
    {
        Mat2 {
            rows: [
                [self.rows[0][0] + other.rows[0][0], self.rows[0][1] + other.rows[0][1]],
                [self.rows[1][0] + other.rows[1][0], self.rows[1][1] + other.rows[1][1]],
            ],
        }
    }

    pub fn sub(self, other: Self) -> (r: Self)
        requires
            forall|i: int, j: int|
                0 <= i < 2 && 0 <= j < 2 ==> i64::MIN <= #[trigger] (self.rows[i][j]
                    - other.rows[i][j]) <= i64::MAX,
        ensures
            forall|i: int, j: int|
                0 <= i < 2 && 0 <= j < 2 ==> #[trigger] r.rows[i][j] == self.rows[i][j]
                    - other.rows[i][j],
    {
        Mat2 {
            rows: [
                [self.rows[0][0] - other.rows[0][0], self.rows[0][1] - other.rows[0][1]],
                [self.rows[1][0] - other.rows[1][0], self.rows[1][1] - other.rows[1][1]],
            ],
        }
    }

    pub fn neg(self) -> (r: Self)
        requires
            forall|i: int, j: int|
                0 <= i < 2 && 0 <= j < 2 ==> #[trigger] self.rows[i][j] != i64::MIN,
        ensures
            forall|i: int, j: int|
                0 <= i < 2 && 0 <= j < 2 ==> #[trigger] r.rows[i][j] == -self.rows[i][j],
    {
        Mat2 {
            rows: [
                [-self.rows[0][0], -self.rows[0][1]],
                [-self.rows[1][0], -self.rows[1][1]],
            ],
        }
    }

    /// Row-vector times matrix, as in the row-major convention: the
    /// `j`-th output component is the dot product of `vec` with the
    /// `j`-th column of `this`.
    pub fn vec_mul(vec: Vec2, this: Mat2) -> (r: Vec2)
        requires
            i64::MIN <= vec.x * this.rows[0][0] <= i64::MAX,
            i64::MIN <= vec.y * this.rows[1][0] <= i64::MAX,
            i64::MIN <= vec.x * this.rows[0][0] + vec.y * this.rows[1][0] <= i64::MAX,
            i64::MIN <= vec.x * this.rows[0][1] <= i64::MAX,
            i64::MIN <= vec.y * this.rows[1][1] <= i64::MAX,
            i64::MIN <= vec.x * this.rows[0][1] + vec.y * this.rows[1][1] <= i64::MAX,
        ensures
            r.x == vec.x * this.rows[0][0] + vec.y * this.rows[1][0],
            r.y == vec.x * this.rows[0][1] + vec.y * this.rows[1][1],
    {
        Vec2 {
            x: vec.x * this.rows[0][0] + vec.y * this.rows[1][0],
            y: vec.x * this.rows[0][1] + vec.y * this.rows[1][1],
        }
    }
}

} // verus!

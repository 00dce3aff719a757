//! The type-format encoding: a bidirectional mapping between shape
//! descriptors (primitive kind, rows, columns) and opaque 16-bit wire codes,
//! plus element-size computation.

use vstd::arithmetic::div_mod::lemma_fundamental_div_mod;
use vstd::arithmetic::div_mod::lemma_fundamental_div_mod_converse;
use vstd::prelude::*;

verus! {

/// The number of supported primitive kinds.
pub const TYPES: u16 = 10;

/// The largest supported row or column dimension.
pub const SIZE: u16 = 80;

/// The primitive kind of a property's elements.
#[derive(Copy, Clone, PartialEq, Eq, Structural, Debug)]
pub enum Type {
    /// Unsigned 8 bit integer.
    U8,
    /// Unsigned 16 bit integer.
    U16,
    /// Unsigned 32 bit integer.
    U32,
    /// Unsigned 64 bit integer.
    U64,
    /// Signed 8 bit integer.
    I8,
    /// Signed 16 bit integer.
    I16,
    /// Signed 32 bit integer.
    I32,
    /// Signed 64 bit integer.
    I64,
    /// 32 bit float, carried as its IEEE bit pattern.
    F32,
    /// 64 bit float, carried as its IEEE bit pattern.
    F64,
}

impl Type {
    /// The unique index of each primitive kind in the code space.
    pub open spec fn spec_type_id(self) -> u16 {
        match self {
            Type::U8 => 0,
            Type::U16 => 1,
            Type::U32 => 2,
            Type::U64 => 3,
            Type::I8 => 4,
            Type::I16 => 5,
            Type::I32 => 6,
            Type::I64 => 7,
            Type::F32 => 8,
            Type::F64 => 9,
        }
    }

    /// The serialized width of one value of this kind, in bytes.
    pub open spec fn spec_size(self) -> u64 {
        match self {
            Type::U8 => 1,
            Type::U16 => 2,
            Type::U32 => 4,
            Type::U64 => 8,
            Type::I8 => 1,
            Type::I16 => 2,
            Type::I32 => 4,
            Type::I64 => 8,
            Type::F32 => 4,
            Type::F64 => 8,
        }
    }

    /// The primitive kind with the given index.
    pub open spec fn spec_kind_of(id: int) -> Type
        recommends
            0 <= id < 10,
    {
        if id == 0 {
            Type::U8
        } else if id == 1 {
            Type::U16
        } else if id == 2 {
            Type::U32
        } else if id == 3 {
            Type::U64
        } else if id == 4 {
            Type::I8
        } else if id == 5 {
            Type::I16
        } else if id == 6 {
            Type::I32
        } else if id == 7 {
            Type::I64
        } else if id == 8 {
            Type::F32
        } else {
            Type::F64
        }
    }

    /// The wire code of a matrix of this kind with the given dimensions.
    /// A scalar is the 1 by 1 case and a vector of dimension `d` the
    /// 1 by `d` case.
    pub open spec fn spec_matrix_code(self, rows: u8, cols: u8) -> u16
        recommends
            1 <= rows <= 80,
            1 <= cols <= 80,
    {
        (1 + self.spec_type_id() * 6400 + (rows - 1) * 80 + (cols - 1)) as u16
    }

    /// The kind and dimensions a wire code stands for: `None` for the
    /// stream terminator (code 0) and for the custom-format range.
    pub open spec fn spec_info(format: u16) -> Option<(Type, u8, u8)> {
        if format == 0 || format >= 64001 {
            None
        } else {
            let f = format - 1;
            Some(
                (
                    Type::spec_kind_of(f / 6400),
                    (((f % 6400) / 80) + 1) as u8,
                    ((f % 80) + 1) as u8,
                ),
            )
        }
    }

    /// A unique number representing each type.
    pub fn type_id(&self) -> (r: u16)
        ensures
            r == self.spec_type_id(),
    {
        match *self {
            Type::U8 => 0,
            Type::U16 => 1,
            Type::U32 => 2,
            Type::U64 => 3,
            Type::I8 => 4,
            Type::I16 => 5,
            Type::I32 => 6,
            Type::I64 => 7,
            Type::F32 => 8,
            Type::F64 => 9,
        }
    }

    /// Returns the size of type in bytes.
    pub fn type_size(&self) -> (r: u64)
        ensures
            r == self.spec_size(),
    {
        match *self {
            Type::U8 => 1,
            Type::U16 => 2,
            Type::U32 => 4,
            Type::U64 => 8,
            Type::I8 => 1,
            Type::I16 => 2,
            Type::I32 => 4,
            Type::I64 => 8,
            Type::F32 => 4,
            Type::F64 => 8,
        }
    }

    /// Returns the type format and size in bytes for a matrix.
    ///
    /// Notice that this method uses rows and columns, not width and height.
    ///
    /// Returns `None` if either dimension is zero or exceeds 80.
    pub fn matrix(&self, rows: u8, cols: u8) -> (res: Option<(u16, u64)>)
        ensures
            res is Some <==> (1 <= rows <= 80 && 1 <= cols <= 80),
            res matches Some(p) ==> p.0 == self.spec_matrix_code(rows, cols) && p.1
                == self.spec_size() * rows * cols,
    {
        if cols == 0 || rows == 0 || cols as u16 > SIZE || rows as u16 > SIZE {
            None
        } else {
            proof {
                let s = self.spec_size() as int;
                let c = cols as int;
                let w = rows as int;
                assert(s * c * w == s * w * c && s * c <= 640 && s * c * w <= 51200)
                    by (nonlinear_arith)
                    requires
                        1 <= s <= 8,
                        1 <= c <= 80,
                        1 <= w <= 80,
                ;
            }
            let code: u16 = 1 + self.type_id() * SIZE * SIZE + ((rows - 1) as u16) * SIZE + ((cols
                - 1) as u16);
            let size: u64 = self.type_size() * cols as u64 * rows as u64;
            Some((code, size))
        }
    }

    /// Returns the type format and size in bytes for a scalar.
    pub fn scalar(&self) -> (res: (u16, u64))
        ensures
            res.0 == self.spec_matrix_code(1, 1),
            res.1 == self.spec_size(),
    {
        (1 + self.type_id() * SIZE * SIZE, self.type_size())
    }

    /// Returns the type format and size in bytes for a vector.
    ///
    /// Returns `None` if the dimension is zero or exceeds 80.
    pub fn vector(&self, dim: u8) -> (res: Option<(u16, u64)>)
        ensures
            res is Some <==> 1 <= dim <= 80,
            res matches Some(p) ==> p.0 == self.spec_matrix_code(1, dim) && p.1 == self.spec_size()
                * dim,
    {
        if dim == 0 || dim as u16 > SIZE {
            None
        } else {
            proof {
                let s = self.spec_size() as int;
                let d = dim as int;
                assert(s * d <= 640) by (nonlinear_arith)
                    requires
                        1 <= s <= 8,
                        1 <= d <= 80,
                ;
            }
            Some(
                (
                    1 + self.type_id() * SIZE * SIZE + (dim - 1) as u16,
                    self.type_size() * dim as u64,
                ),
            )
        }
    }

    /// Returns the offset for specifying a custom format.
    pub fn offset_custom_format() -> (r: u16)
        ensures
            r == 64001,
    {
        1 + TYPES * SIZE * SIZE
    }

    /// Returns the number of available custom formats.
    pub fn custom_formats() -> (r: u16)
        ensures
            r == 1535,
    {
        65535 - Type::offset_custom_format() + 1
    }

    /// Returns the type and matrix dimensions from type format.
    pub fn info(format: u16) -> (res: Option<(Type, u8, u8)>)
        ensures
            res == Type::spec_info(format),
    {
        if format == 0 || format >= Type::offset_custom_format() {
            None
        } else {
            let f = format - 1;
            let ty = f / (SIZE * SIZE);
            let rows = (f % (SIZE * SIZE)) / SIZE + 1;
            let cols = f % SIZE + 1;
            Some(
                (
                    match ty {
                        0 => Type::U8,
                        1 => Type::U16,
                        2 => Type::U32,
                        3 => Type::U64,
                        4 => Type::I8,
                        5 => Type::I16,
                        6 => Type::I32,
                        7 => Type::I64,
                        8 => Type::F32,
                        _ => Type::F64,
                    },
                    rows as u8,
                    cols as u8,
                ),
            )
        }
    }
}

/// Law: encoding any in-range shape and decoding the resulting wire code
/// recovers exactly the kind, rows and columns that were encoded.
pub proof fn lemma_type_code_round_trip(t: Type, rows: u8, cols: u8)
    requires
        1 <= rows <= 80,
        1 <= cols <= 80,
    ensures
        Type::spec_info(t.spec_matrix_code(rows, cols)) == Some((t, rows, cols)),
{
    let id = t.spec_type_id() as int;
    let a = (rows - 1) * 80 + (cols - 1);
    let f = id * 6400 + a;
    assert(0 <= a < 6400);
    assert(t.spec_matrix_code(rows, cols) == 1 + f);
    lemma_fundamental_div_mod_converse(f, 6400, id, a);
    lemma_fundamental_div_mod_converse(a, 80, (rows - 1) as int, (cols - 1) as int);
    assert(f % 80 == cols - 1) by {
        lemma_fundamental_div_mod_converse(f, 80, id * 80 + (rows - 1), (cols - 1) as int);
    }
    assert(Type::spec_kind_of(id) == t);
}

/// Law: every wire code below the custom-format range decodes to an
/// in-range shape whose encoding is the code itself.
pub proof fn lemma_type_info_round_trip(format: u16)
    requires
        1 <= format < 64001,
    ensures
        Type::spec_info(format) matches Some((t, rows, cols)) && {
            &&& 1 <= rows <= 80
            &&& 1 <= cols <= 80
            &&& t.spec_matrix_code(rows, cols) == format
        },
{
    let f = (format - 1) as int;
    lemma_fundamental_div_mod(f, 6400);
    lemma_fundamental_div_mod(f % 6400, 80);
    lemma_fundamental_div_mod(f, 80);
    let id = f / 6400;
    assert(0 <= f % 6400 < 6400);
    assert(0 <= id <= 9);
    let t = Type::spec_kind_of(id);
    assert(t.spec_type_id() == id);
    let rows = (f % 6400) / 80;
    let cols = f % 80;
    assert(0 <= rows < 80);
    assert(0 <= cols < 80);
    assert(f % 6400 == 80 * rows + cols) by {
        assert((f % 6400) % 80 == f % 80) by {
            lemma_fundamental_div_mod_converse(
                f % 6400,
                80,
                rows,
                (f % 6400) % 80,
            );
            lemma_fundamental_div_mod_converse(
                f,
                80,
                (f / 6400) * 80 + rows,
                (f % 6400) % 80,
            );
        }
    }
    assert(f == id * 6400 + rows * 80 + cols);
}

} // verus!

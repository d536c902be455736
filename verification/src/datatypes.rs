use vstd::prelude::*;

verus! {

/// Byte width of a fixed-width (primitive) element.
#[derive(Clone, Copy, Debug, PartialEq, Eq, Structural)]
pub enum PrimitiveWidth {
    W1,
    W2,
    W4,
    W8,
}

impl PrimitiveWidth {
    /// The width in bytes, as a specification value.
    pub open spec fn spec_size(self) -> nat {
        match self {
            PrimitiveWidth::W1 => 1,
            PrimitiveWidth::W2 => 2,
            PrimitiveWidth::W4 => 4,
            PrimitiveWidth::W8 => 8,
        }
    }

    /// The width in bytes.
    pub fn size(self) -> (r: usize)
        ensures
            r == self.spec_size(),
            1 <= r <= 8,
    {
        match self {
            PrimitiveWidth::W1 => 1,
            PrimitiveWidth::W2 => 2,
            PrimitiveWidth::W4 => 4,
            PrimitiveWidth::W8 => 8,
        }
    }
}

/// The physical shape of a column. Fixed-width numeric data is identified by
/// its element width; its values travel as the little-endian bit patterns of
/// the elements. The nested and dictionary shapes are recognized but have no
/// encoding: asking for one fails explicitly.
#[derive(Clone, Copy, Debug, PartialEq, Eq, Structural)]
pub enum DataType {
    Null,
    Boolean,
    Primitive(PrimitiveWidth),
    Binary,
    LargeBinary,
    Utf8,
    LargeUtf8,
    FixedSizeBinary,
    List,
    LargeList,
    FixedSizeList,
    Struct,
    Dictionary,
    Union,
    Mapping,
}

impl DataType {
    /// Whether this library can encode and decode arrays of this shape.
    pub open spec fn spec_supported(self) -> bool {
        match self {
            DataType::Null | DataType::Boolean | DataType::Primitive(_) | DataType::Binary
                | DataType::LargeBinary | DataType::Utf8 | DataType::LargeUtf8 => true,
            _ => false,
        }
    }
}

/// An ordered list of column shapes; position `j` describes column `j`.
#[derive(Debug)]
pub struct Schema {
    pub fields: Vec<DataType>,
}

impl Clone for Schema {
    fn clone(&self) -> (r: Schema)
        ensures
            r.fields@ == self.fields@,
    {
        let n = self.fields.len();
        let mut fields: Vec<DataType> = Vec::new();
        let mut i: usize = 0;
        while i < n
            invariant
                i <= n,
                n == self.fields@.len(),
                fields@ =~= self.fields@.subrange(0, i as int),
            decreases n - i,
        {
            fields.push(self.fields[i]);
            i = i + 1;
        }
        proof {
            assert(fields@ =~= self.fields@);
        }
        Schema { fields }
    }
}

impl Schema {
    pub fn new(fields: Vec<DataType>) -> (r: Schema)
        ensures
            r.fields@ == fields@,
    {
        Schema { fields }
    }
}

} // verus!

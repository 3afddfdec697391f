//! Logical column types.
use crate::shared::share;
use std::sync::Arc;
use vstd::prelude::*;

verus! {

/// Resolution of a temporal type.
#[derive(Clone, Copy, Debug, PartialEq, Eq, Structural)]
pub enum TimeUnit {
    Second,
    Millisecond,
    Microsecond,
    Nanosecond,
}

/// Resolution of a calendar interval.
#[derive(Clone, Copy, Debug, PartialEq, Eq, Structural)]
pub enum IntervalUnit {
    YearMonth,
    DayTime,
    MonthDayNano,
}

/// Physical layout of a union.
#[derive(Clone, Copy, Debug, PartialEq, Eq, Structural)]
pub enum UnionMode {
    Sparse,
    Dense,
}

/// A named, typed column.
#[derive(Debug, PartialEq, Eq)]
pub struct Field {
    pub name: String,
    pub data_type: DataType,
    pub nullable: bool,
    pub metadata: Arc<Vec<(String, String)>>,
}

/// The type of a column's values.
#[derive(Debug, PartialEq, Eq)]
pub enum DataType {
    Null,
    Boolean,
    Int8,
    Int16,
    Int32,
    Int64,
    UInt8,
    UInt16,
    UInt32,
    UInt64,
    Float16,
    Float32,
    Float64,
    Timestamp(TimeUnit, Option<Arc<String>>),
    Date32,
    Date64,
    Time32(TimeUnit),
    Time64(TimeUnit),
    Duration(TimeUnit),
    Interval(IntervalUnit),
    Binary,
    FixedSizeBinary(i32),
    LargeBinary,
    BinaryView,
    Utf8,
    LargeUtf8,
    Utf8View,
    List(Arc<Field>),
    ListView(Arc<Field>),
    FixedSizeList(Arc<Field>, i32),
    LargeList(Arc<Field>),
    LargeListView(Arc<Field>),
    Struct(Arc<Vec<Field>>),
    Union(Arc<Vec<(i8, Field)>>, UnionMode),
    Dictionary(Box<DataType>, Box<DataType>),
    Decimal32(u8, i8),
    Decimal64(u8, i8),
    Decimal128(u8, i8),
    Decimal256(u8, i8),
    MapEntries(Arc<Field>, bool),
    RunEndEncoded(Arc<Field>, Arc<Field>),
}

/// The columns of a batch.
#[derive(Debug, PartialEq, Eq)]
pub struct Schema {
    pub fields: Vec<Field>,
}

impl DataType {
    /// An equal type; nested fields are shared, not copied.
    pub fn duplicate(&self) -> (result: DataType)
        ensures
            result == *self,
        decreases self,
    {
        match self {
            DataType::Null => DataType::Null,
            DataType::Boolean => DataType::Boolean,
            DataType::Int8 => DataType::Int8,
            DataType::Int16 => DataType::Int16,
            DataType::Int32 => DataType::Int32,
            DataType::Int64 => DataType::Int64,
            DataType::UInt8 => DataType::UInt8,
            DataType::UInt16 => DataType::UInt16,
            DataType::UInt32 => DataType::UInt32,
            DataType::UInt64 => DataType::UInt64,
            DataType::Float16 => DataType::Float16,
            DataType::Float32 => DataType::Float32,
            DataType::Float64 => DataType::Float64,
            DataType::Timestamp(unit, Some(zone)) => DataType::Timestamp(*unit, Some(share(zone))),
            DataType::Timestamp(unit, None) => DataType::Timestamp(*unit, None),
            DataType::Date32 => DataType::Date32,
            DataType::Date64 => DataType::Date64,
            DataType::Time32(unit) => DataType::Time32(*unit),
            DataType::Time64(unit) => DataType::Time64(*unit),
            DataType::Duration(unit) => DataType::Duration(*unit),
            DataType::Interval(unit) => DataType::Interval(*unit),
            DataType::Binary => DataType::Binary,
            DataType::FixedSizeBinary(size) => DataType::FixedSizeBinary(*size),
            DataType::LargeBinary => DataType::LargeBinary,
            DataType::BinaryView => DataType::BinaryView,
            DataType::Utf8 => DataType::Utf8,
            DataType::LargeUtf8 => DataType::LargeUtf8,
            DataType::Utf8View => DataType::Utf8View,
            DataType::List(field) => DataType::List(share(field)),
            DataType::ListView(field) => DataType::ListView(share(field)),
            DataType::FixedSizeList(field, size) => DataType::FixedSizeList(share(field), *size),
            DataType::LargeList(field) => DataType::LargeList(share(field)),
            DataType::LargeListView(field) => DataType::LargeListView(share(field)),
            DataType::Struct(fields) => DataType::Struct(share(fields)),
            DataType::Union(fields, mode) => DataType::Union(share(fields), *mode),
            DataType::Dictionary(key, value) => DataType::Dictionary(
                Box::new(key.duplicate()),
                Box::new(value.duplicate()),
            ),
            DataType::Decimal32(precision, scale) => DataType::Decimal32(*precision, *scale),
            DataType::Decimal64(precision, scale) => DataType::Decimal64(*precision, *scale),
            DataType::Decimal128(precision, scale) => DataType::Decimal128(*precision, *scale),
            DataType::Decimal256(precision, scale) => DataType::Decimal256(*precision, *scale),
            DataType::MapEntries(field, sorted) => DataType::MapEntries(share(field), *sorted),
            DataType::RunEndEncoded(ends, values) => DataType::RunEndEncoded(
                share(ends),
                share(values),
            ),
        }
    }
}

impl Clone for DataType {
    fn clone(&self) -> (result: DataType)
        ensures
            result == *self,
    {
        self.duplicate()
    }
}

} // verus!

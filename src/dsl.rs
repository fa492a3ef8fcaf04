//! A compact query builder: rows, columns and measures named by field
//! name and type.
use vstd::prelude::*;

verus! {

#[derive(Debug, Clone)]
pub struct QueryBuilder {
    rows: Vec<Dimension>,
    columns: Vec<Dimension>,
    measures: Vec<Measure>,
}

impl QueryBuilder {
    pub closed spec fn spec_rows(&self) -> Seq<Dimension> {
        self.rows@
    }

    pub closed spec fn spec_cols(&self) -> Seq<Dimension> {
        self.columns@
    }

    pub closed spec fn spec_meas(&self) -> Seq<Measure> {
        self.measures@
    }

    pub fn new() -> (r: QueryBuilder)
        ensures
            r.spec_rows() == Seq::<Dimension>::empty(),
            r.spec_cols() == Seq::<Dimension>::empty(),
            r.spec_meas() == Seq::<Measure>::empty(),
    {
        QueryBuilder { rows: Vec::new(), columns: Vec::new(), measures: Vec::new() }
    }

    /// Moves the dimensions of `rows` to the end of the rows.
    pub fn row(self, rows: &mut Vec<Dimension>) -> (r: Self)
        ensures
            r.spec_rows() == self.spec_rows() + old(rows)@,
            final(rows)@ == Seq::<Dimension>::empty(),
            r.spec_cols() == self.spec_cols(),
            r.spec_meas() == self.spec_meas(),
    {
        let mut s = self;
        s.rows.append(rows);
        s
    }

    /// Moves the dimensions of `columns` to the end of the columns.
    pub fn col(self, columns: &mut Vec<Dimension>) -> (r: Self)
        ensures
            r.spec_cols() == self.spec_cols() + old(columns)@,
            final(columns)@ == Seq::<Dimension>::empty(),
            r.spec_rows() == self.spec_rows(),
            r.spec_meas() == self.spec_meas(),
    {
        let mut s = self;
        s.columns.append(columns);
        s
    }

    /// Moves the measures of `measures` to the end of the measures.
    pub fn meas(self, measures: &mut Vec<Measure>) -> (r: Self)
        ensures
            r.spec_meas() == self.spec_meas() + old(measures)@,
            final(measures)@ == Seq::<Measure>::empty(),
            r.spec_rows() == self.spec_rows(),
            r.spec_cols() == self.spec_cols(),
    {
        let mut s = self;
        s.measures.append(measures);
        s
    }

    /// Orders by text are not applied: the query is returned as it is.
    pub fn order(&self, orders: Vec<&str>) -> (r: &Self)
        ensures
            r == self,
    {
        self
    }

    /// Filters by text are not applied: the query is returned as it is.
    pub fn filter(&self, filters: Vec<&str>) -> (r: &Self)
        ensures
            r == self,
    {
        self
    }
}

/// A dimension: a named field laid out as a row or as a column.
#[derive(Debug, Clone)]
pub struct Dimension {
    dimension_type: DimensionType,
    field_name: String,
    field_type: DataType,
}

impl Dimension {
    pub closed spec fn view_parts(&self) -> (DimensionType, Seq<char>, DataType) {
        (self.dimension_type, self.field_name@, self.field_type)
    }

    pub fn new_row(field_name: String, field_type: DataType) -> (r: Dimension)
        ensures
            r.view_parts() == (DimensionType::Row, field_name@, field_type),
    {
        Dimension { dimension_type: DimensionType::Row, field_name, field_type }
    }

    pub fn new_col(field_name: String, field_type: DataType) -> (r: Dimension)
        ensures
            r.view_parts() == (DimensionType::Column, field_name@, field_type),
    {
        Dimension { dimension_type: DimensionType::Column, field_name, field_type }
    }
}

/// A measure: a named value of a type.
#[derive(Debug, Clone)]
pub struct Measure {
    measure_name: String,
    measure_type: DataType,
}

impl Measure {
    pub closed spec fn view_parts(&self) -> (Seq<char>, DataType) {
        (self.measure_name@, self.measure_type)
    }

    pub fn new(measure_name: String, measure_type: DataType) -> (r: Measure)
        ensures
            r.view_parts() == (measure_name@, measure_type),
    {
        Measure { measure_name, measure_type }
    }
}

#[derive(Debug, Copy, Clone, PartialEq, Eq, Structural)]
pub enum DimensionType {
    Row,
    Column,
}

#[derive(Debug, Copy, Clone, PartialEq, Eq, Structural)]
pub enum DataType {
    Text,
    Number,
    Date,
}

} // verus!

//! A builder for analytical queries: rows, columns, measures, orders and
//! the table they read.
use vstd::prelude::*;

verus! {

#[derive(Debug, Clone)]
pub struct QueryBuilder {
    rows: Vec<Dimension>,
    columns: Vec<Dimension>,
    measures: Vec<Measure>,
    orders: Vec<Order>,
    filters: Vec<Measure>,
    table: String,
}

impl QueryBuilder {
    pub closed spec fn spec_rows(&self) -> Seq<Dimension> {
        self.rows@
    }

    pub closed spec fn spec_cols(&self) -> Seq<Dimension> {
        self.columns@
    }

    pub closed spec fn spec_meas(&self) -> Seq<Measure> {
        self.measures@
    }

    pub closed spec fn spec_orders(&self) -> Seq<Order> {
        self.orders@
    }

    pub closed spec fn spec_filters(&self) -> Seq<Measure> {
        self.filters@
    }

    pub closed spec fn spec_table(&self) -> Seq<char> {
        self.table@
    }

    /// An empty query on no table.
    pub fn new() -> (r: QueryBuilder)
        ensures
            r.spec_rows() == Seq::<Dimension>::empty(),
            r.spec_cols() == Seq::<Dimension>::empty(),
            r.spec_meas() == Seq::<Measure>::empty(),
            r.spec_orders() == Seq::<Order>::empty(),
            r.spec_filters() == Seq::<Measure>::empty(),
            r.spec_table() == Seq::<char>::empty(),
    {
        QueryBuilder {
            rows: Vec::new(),
            columns: Vec::new(),
            measures: Vec::new(),
            orders: Vec::new(),
            filters: Vec::new(),
            table: String::new(),
        }
    }

    /// The same query on `table`.
    pub fn table(self, table: String) -> (r: Self)
        ensures
            r.spec_table() == table@,
            r.spec_rows() == self.spec_rows(),
            r.spec_cols() == self.spec_cols(),
            r.spec_meas() == self.spec_meas(),
            r.spec_orders() == self.spec_orders(),
            r.spec_filters() == self.spec_filters(),
    {
        let mut s = self;
        s.table = table;
        s
    }

    /// Moves the dimensions of `rows` to the end of the rows.
    pub fn row(self, rows: &mut Vec<Dimension>) -> (r: Self)
        ensures
            r.spec_rows() == self.spec_rows() + old(rows)@,
            final(rows)@ == Seq::<Dimension>::empty(),
            r.spec_cols() == self.spec_cols(),
            r.spec_meas() == self.spec_meas(),
            r.spec_orders() == self.spec_orders(),
            r.spec_filters() == self.spec_filters(),
            r.spec_table() == self.spec_table(),
    {
        let mut s = self;
        s.rows.append(rows);
        s
    }

    /// Moves the dimensions of `columns` to the end of the columns.
    pub fn col(self, columns: &mut Vec<Dimension>) -> (r: Self)
        ensures
            r.spec_cols() == self.spec_cols() + old(columns)@,
            final(columns)@ == Seq::<Dimension>::empty(),
            r.spec_rows() == self.spec_rows(),
            r.spec_meas() == self.spec_meas(),
            r.spec_orders() == self.spec_orders(),
            r.spec_filters() == self.spec_filters(),
            r.spec_table() == self.spec_table(),
    {
        let mut s = self;
        s.columns.append(columns);
        s
    }

    /// Moves the measures of `measures` to the end of the measures.
    pub fn meas(self, measures: &mut Vec<Measure>) -> (r: Self)
        ensures
            r.spec_meas() == self.spec_meas() + old(measures)@,
            final(measures)@ == Seq::<Measure>::empty(),
            r.spec_rows() == self.spec_rows(),
            r.spec_cols() == self.spec_cols(),
            r.spec_orders() == self.spec_orders(),
            r.spec_filters() == self.spec_filters(),
            r.spec_table() == self.spec_table(),
    {
        let mut s = self;
        s.measures.append(measures);
        s
    }

    pub fn get_meas(&self) -> (r: &Vec<Measure>)
        ensures
            r@ == self.spec_meas(),
    {
        &self.measures
    }

    pub fn get_rows(&self) -> (r: &Vec<Dimension>)
        ensures
            r@ == self.spec_rows(),
    {
        &self.rows
    }

    pub fn get_cols(&self) -> (r: &Vec<Dimension>)
        ensures
            r@ == self.spec_cols(),
    {
        &self.columns
    }

    pub fn get_table(&self) -> (r: &String)
        ensures
            r@ == self.spec_table(),
    {
        &self.table
    }

    /// Takes the rows and then the columns out of the query, in that order.
    pub fn get_rows_and_cols(&mut self) -> (r: Vec<Dimension>)
        ensures
            r@ == old(self).spec_rows() + old(self).spec_cols(),
            final(self).spec_rows() == Seq::<Dimension>::empty(),
            final(self).spec_cols() == Seq::<Dimension>::empty(),
            final(self).spec_meas() == old(self).spec_meas(),
            final(self).spec_orders() == old(self).spec_orders(),
            final(self).spec_filters() == old(self).spec_filters(),
            final(self).spec_table() == old(self).spec_table(),
    {
        let mut res: Vec<Dimension> = Vec::new();
        res.append(&mut self.rows);
        res.append(&mut self.columns);
        res
    }

    /// Moves the orders of `orders` to the end of the orders.
    pub fn order(self, orders: &mut Vec<Order>) -> (r: Self)
        ensures
            r.spec_orders() == self.spec_orders() + old(orders)@,
            final(orders)@ == Seq::<Order>::empty(),
            r.spec_rows() == self.spec_rows(),
            r.spec_cols() == self.spec_cols(),
            r.spec_meas() == self.spec_meas(),
            r.spec_filters() == self.spec_filters(),
            r.spec_table() == self.spec_table(),
    {
        let mut s = self;
        s.orders.append(orders);
        s
    }

    /// Filters by text are not applied: the query is returned as it is.
    pub fn filter(&self, filters: Vec<&str>) -> (r: &Self)
        ensures
            r == self,
    {
        self
    }
}

#[derive(Debug, Clone)]
pub struct Field {
    pub field_name: String,
    pub field_type: DataType,
    pub display_name: String,
}

impl Field {
    /// A field; an empty display name is replaced by the field name.
    pub fn new(field_name: String, field_type: DataType, display_name: String) -> (r: Self)
        ensures
            r.field_name@ == field_name@,
            r.field_type == field_type,
            r.display_name@ == (if display_name@.len() == 0 {
                field_name@
            } else {
                display_name@
            }),
    {
        let mut display_name = display_name;
        if display_name.as_str().is_empty() {
            display_name = field_name.clone();
        }
        Field { field_name, field_type, display_name }
    }
}

/// A dimension: a field laid out as a row or as a column.
#[derive(Debug, Clone)]
pub struct Dimension {
    pub dimension_type: DimensionType,
    pub field: Field,
}

impl Dimension {
    pub fn new_row(field: Field) -> (r: Dimension)
        ensures
            r.dimension_type == DimensionType::Row,
            r.field == field,
    {
        Dimension { dimension_type: DimensionType::Row, field }
    }

    pub fn new_col(field: Field) -> (r: Dimension)
        ensures
            r.dimension_type == DimensionType::Column,
            r.field == field,
    {
        Dimension { dimension_type: DimensionType::Column, field }
    }
}

/// A measure: a field with the aggregate applied to it.
#[derive(Debug, Clone)]
pub struct Measure {
    pub field: Field,
    pub measure_type: MeasureFn,
}

impl Measure {
    pub fn new(field: Field, measure_type: MeasureFn) -> (r: Measure)
        ensures
            r.field == field,
            r.measure_type == measure_type,
    {
        Measure { field, measure_type }
    }
}

/// An ordering on a field.
#[derive(Debug, Clone)]
pub struct Order {
    field: Field,
    order_type: OrderType,
}

impl Order {
    pub closed spec fn spec_field(&self) -> Field {
        self.field
    }

    pub closed spec fn spec_order_type(&self) -> OrderType {
        self.order_type
    }

    /// An ascending ordering on `field`.
    pub fn new(field: Field) -> (r: Self)
        ensures
            r.spec_field() == field,
            r.spec_order_type() == OrderType::ASC,
    {
        Order { field, order_type: OrderType::ASC }
    }

    pub fn new_with_order(field: Field, order_type: OrderType) -> (r: Self)
        ensures
            r.spec_field() == field,
            r.spec_order_type() == order_type,
    {
        Order { field, order_type }
    }
}

/// A condition on a field.
pub struct Filter {
    field: Field,
}

#[derive(Debug, Copy, Clone, PartialEq, Eq, Structural)]
pub enum DimensionType {
    Row,
    Column,
}

#[derive(Debug, Copy, Clone, PartialEq, Eq, Structural)]
pub enum DataType {
    Text,
    Number,
    Date,
}

#[derive(Debug, Copy, Clone, PartialEq, Eq, Structural)]
pub enum OrderType {
    ASC,
    DESC,
}

#[derive(Debug, Copy, Clone, PartialEq, Eq, Structural)]
pub enum MeasureFn {
    SUM,
    MAX,
    MIN,
    AVG,
    COUNT,
}

} // verus!

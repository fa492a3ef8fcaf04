//! Dataset metadata: field records and the data types a field may hold.
use vstd::prelude::*;
use crate::text::string_of;

verus! {

/// The kind of data a field holds.
#[derive(Debug, Clone, Copy, PartialEq, Eq, Structural)]
pub enum DataType {
    Text,
    Number,
    Date,
}

pub open spec fn data_type_name(t: DataType) -> Seq<char> {
    match t {
        DataType::Text => seq!['T', 'e', 's', 't'],
        DataType::Number => seq!['N', 'u', 'm', 'b', 'e', 'r'],
        DataType::Date => seq!['D', 'a', 't', 'e'],
    }
}

impl DataType {
    /// The name of the data type.
    pub fn get_type_name(&self) -> (r: String)
        ensures
            r@ == data_type_name(*self),
    {
        let v: Vec<char> = match self {
            DataType::Text => vec!['T', 'e', 's', 't'],
            DataType::Number => vec!['N', 'u', 'm', 'b', 'e', 'r'],
            DataType::Date => vec!['D', 'a', 't', 'e'],
        };
        let r = string_of(&v);
        assert(r@ =~= data_type_name(*self));
        r
    }
}

/// A field of a dataset as it is stored.
#[derive(Debug, Clone)]
pub struct Field {
    pub id: String,
    pub name: String,
    pub dataset_id: String,
    pub data_type: String,
    pub field_type: String,
    pub display_name: String,
    pub formula: String,
}

impl Default for Field {
    /// An empty field of text data.
    fn default() -> (r: Self)
        ensures
            r.id@.len() == 0,
            r.name@.len() == 0,
            r.dataset_id@.len() == 0,
            r.data_type@ == data_type_name(DataType::Text),
            r.field_type@.len() == 0,
            r.display_name@.len() == 0,
            r.formula@.len() == 0,
    {
        Self {
            id: String::new(),
            name: String::new(),
            dataset_id: String::new(),
            data_type: DataType::Text.get_type_name(),
            field_type: String::new(),
            display_name: String::new(),
            formula: String::new(),
        }
    }
}

/// Entry point for dataset operations.
pub struct DataSetResolver;

} // verus!

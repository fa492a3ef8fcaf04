//! The analytical engines a dataset can live in.
use vstd::prelude::*;
use crate::text::string_of;

verus! {

#[derive(Debug, Clone, Copy, PartialEq, Eq, Structural)]
pub enum EngineType {
    ClickHouse,
    ElasticSearch,
}

pub open spec fn engine_name(t: EngineType) -> Seq<char> {
    match t {
        EngineType::ClickHouse => seq!['C', 'l', 'i', 'c', 'k', 'H', 'o', 'u', 's', 'e'],
        EngineType::ElasticSearch => seq!['E', 'l', 'a', 's', 't', 'i', 'c', 'S', 'e', 'a', 'r', 'c', 'h'],
    }
}

impl EngineType {
    /// The name of the engine.
    pub fn get_type(&self) -> (r: String)
        ensures
            r@ == engine_name(*self),
    {
        let v: Vec<char> = match self {
            EngineType::ClickHouse => vec!['C', 'l', 'i', 'c', 'k', 'H', 'o', 'u', 's', 'e'],
            EngineType::ElasticSearch => vec!['E', 'l', 'a', 's', 't', 'i', 'c', 'S', 'e', 'a', 'r', 'c', 'h'],
        };
        let r = string_of(&v);
        assert(r@ =~= engine_name(*self));
        r
    }
}

} // verus!

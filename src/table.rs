//! The schema of a table. It reaches the disk as text, encrypted; turning
//! it into text and back is the caller's serialisation.
use std::collections::HashMap;
use vstd::prelude::*;

verus! {

/// A table's schema: its name, ordered columns, default values, required
/// and locked columns, and column types.
pub struct Table {
    pub name: String,
    pub row_names: Vec<String>,
    pub default_values: HashMap<String, String>,
    pub required_columns: Vec<String>,
    pub locked_columns: Vec<String>,
    pub data_types: HashMap<String, String>,
}

impl Table {
    /// A schema from its parts.
    pub fn new(
        name: &str,
        row_names: Vec<String>,
        default_values: HashMap<String, String>,
        required_columns: Vec<String>,
        locked_columns: Vec<String>,
        data_types: HashMap<String, String>,
    ) -> (r: Self)
        ensures
            r.name@ == name@,
            r.row_names == row_names,
            r.default_values == default_values,
            r.required_columns == required_columns,
            r.locked_columns == locked_columns,
            r.data_types == data_types,
    {
        Table {
            name: String::from_str(name),
            row_names,
            default_values,
            required_columns,
            locked_columns,
            data_types,
        }
    }

    /// The schema named `default`, with no columns.
    pub fn default_table() -> (r: Self)
        ensures
            r.name@ == "default"@,
            r.row_names@.len() == 0,
            r.default_values@ == Map::<String, String>::empty(),
            r.required_columns@.len() == 0,
            r.locked_columns@.len() == 0,
            r.data_types@ == Map::<String, String>::empty(),
    {
        let name = String::from_str("default");
        let row_names = Vec::new();
        let default_values = HashMap::new();
        let required_columns = Vec::new();
        let locked_columns = Vec::new();
        let data_types = HashMap::new();
        Table { name, row_names, default_values, required_columns, locked_columns, data_types }
    }
}

} // verus!

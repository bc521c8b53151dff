//! What is fixed for a dataset before any attempt is planned.

use vstd::prelude::*;

verus! {

/// A dataset: its name, the number of its score tables (one for each feature), and the score
/// that a probe has to reach to be accepted, on the scale of the tables as they are stored.
#[derive(Debug, Clone, Copy)]
pub struct Config {
    pub data_set_name: &'static str,
    pub num_tables: usize,
    pub threshold: i64,
}

impl Config {
    /// The BMDB dataset.
    pub fn bmdb1() -> (config: Config)
        ensures
            config.num_tables == 36,
            config.threshold == 14,
            config.data_set_name@ == "BMDB"@,
    {
        Config { data_set_name: "BMDB", num_tables: 36, threshold: 14 }
    }

    /// The PUT dataset.
    pub fn put() -> (config: Config)
        ensures
            config.num_tables == 49,
            config.threshold == -53,
            config.data_set_name@ == "PUT"@,
    {
        Config { data_set_name: "PUT", num_tables: 49, threshold: -53 }
    }

    /// The FRGC dataset.
    pub fn frgc() -> (config: Config)
        ensures
            config.num_tables == 94,
            config.threshold == -1,
            config.data_set_name@ == "FRGC"@,
    {
        Config { data_set_name: "FRGC", num_tables: 94, threshold: -1 }
    }
}

} // verus!

//! The configuration of the comparator: hash grid size, similarity
//! threshold and an optional database location. Loading a
//! configuration file and printing the settings stay with the
//! caller; the defaults and the override rules are decided here.

use vstd::prelude::*;

verus! {

/// The settings of one run.
pub struct Config {
    pub grid_size: u32,
    pub threshold: u32,
    pub database_path: Option<String>,
}

impl Default for Config {
    /// The built-in defaults: a 64 x 64 grid, threshold 15, and the
    /// process-standard database location.
    fn default() -> (r: Self)
        ensures
            r.grid_size == 64,
            r.threshold == 15,
            r.database_path is None,
    {
        Config { grid_size: 64, threshold: 15, database_path: None }
    }
}

impl Clone for Config {
    fn clone(&self) -> (r: Self)
        ensures
            r.grid_size == self.grid_size,
            r.threshold == self.threshold,
            r.database_path is Some <==> self.database_path is Some,
            r.database_path is Some ==> r.database_path->0@ == self.database_path->0@,
    {
        Config {
            grid_size: self.grid_size,
            threshold: self.threshold,
            database_path: match &self.database_path {
                Some(p) => Some(p.clone()),
                None => None,
            },
        }
    }
}

impl Config {
    /// The threshold a run uses: the caller's override when given,
    /// else the configured value.
    pub fn effective_threshold(&self, override_value: Option<u32>) -> (r: u32)
        ensures
            r == (match override_value {
                Some(v) => v,
                None => self.threshold,
            }),
    {
        match override_value {
            Some(v) => v,
            None => self.threshold,
        }
    }

    /// The grid size a run uses: the caller's override when given,
    /// else the configured value.
    pub fn effective_grid_size(&self, override_value: Option<u32>) -> (r: u32)
        ensures
            r == (match override_value {
                Some(v) => v,
                None => self.grid_size,
            }),
    {
        match override_value {
            Some(v) => v,
            None => self.grid_size,
        }
    }
}

} // verus!

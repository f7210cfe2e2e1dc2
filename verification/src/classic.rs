//! The classic lazily built singleton's state: a creation timestamp and
//! a small service-configuration table. The lazily built static that
//! shares one such value across a program lives with the embedding
//! program.

use vstd::prelude::*;

verus! {

use vstd::string::StringExecFns;

use crate::clock::now_stamp;
use crate::settings::clone_entries;
use crate::settings::keys_unique;
use crate::settings::store_pair;
use crate::settings::table_of;
use crate::settings::upsert;

/// The service configuration a fresh instance starts with.
pub open spec fn initial_table() -> Seq<(Seq<char>, Seq<char>)> {
    seq![
        ("api_url"@, "https://api.example.com"@),
        ("timeout"@, "3000"@),
        ("retries"@, "3"@),
    ]
}

/// A creation timestamp and a service-configuration table.
pub struct ClassicSingleton {
    timestamp: i64,
    config: Vec<(String, String)>,
}

impl ClassicSingleton {
    /// The stored configuration, as key and value text.
    pub closed spec fn table(self) -> Seq<(Seq<char>, Seq<char>)> {
        table_of(self.config@)
    }

    /// When the instance was created, as Unix seconds.
    pub closed spec fn stamp(self) -> int {
        self.timestamp as int
    }

    /// Keys are unique.
    pub open spec fn wf(self) -> bool {
        keys_unique(self.table())
    }

    /// An instance stamped with the current time and holding the initial
    /// service configuration.
    pub fn new() -> (r: ClassicSingleton)
        ensures
            r.wf(),
            r.table() == initial_table(),
    {
        let stamped = now_stamp();
        let mut config: Vec<(String, String)> = Vec::new();
        config.push((String::from_str("api_url"), String::from_str("https://api.example.com")));
        config.push((String::from_str("timeout"), String::from_str("3000")));
        config.push((String::from_str("retries"), String::from_str("3")));
        proof {
            assert(table_of(config@) =~= initial_table());
            reveal_strlit("api_url");
            reveal_strlit("timeout");
            reveal_strlit("retries");
            assert(("api_url"@)[0] == 'a');
            assert(("timeout"@)[0] == 't');
            assert(("retries"@)[0] == 'r');
            assert(keys_unique(table_of(config@)));
        }
        ClassicSingleton { timestamp: stamped.0, config }
    }

    /// A copy of the current configuration.
    pub fn get_config(&self) -> (r: Vec<(String, String)>)
        ensures
            table_of(r@) == self.table(),
    {
        clone_entries(&self.config)
    }

    /// Stores one configuration entry.
    pub fn update_config(&mut self, key: &str, value: &str)
        requires
            old(self).wf(),
        ensures
            final(self).wf(),
            final(self).table() == upsert(old(self).table(), key@, value@),
            final(self).stamp() == old(self).stamp(),
    {
        store_pair(&mut self.config, key, value);
    }

    /// When the instance was created, as Unix seconds.
    pub fn get_timestamp(&self) -> (r: i64)
        ensures
            r as int == self.stamp(),
    {
        self.timestamp
    }
}

} // verus!

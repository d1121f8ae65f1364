use vstd::prelude::*;

verus! {

/// Options for a write.  `ttl` is a time-to-live in milliseconds; zero
/// disables expiration.
pub struct SetOptions {
    pub preserve_history: bool,
    pub ttl: u64,
}

impl SetOptions {
    /// The defaults: overwrite the newest version, expire after an hour.
    pub fn new() -> (r: SetOptions)
        ensures
            r.preserve_history == false,
            r.ttl == 3600000u64,
    {
        SetOptions { preserve_history: false, ttl: 3600000 }
    }

    pub fn preserve_history(self, value: bool) -> (r: SetOptions)
        ensures
            r.preserve_history == value,
            r.ttl == self.ttl,
    {
        SetOptions { preserve_history: value, ttl: self.ttl }
    }

    pub fn ttl(self, value: u64) -> (r: SetOptions)
        ensures
            r.preserve_history == self.preserve_history,
            r.ttl == value,
    {
        SetOptions { preserve_history: self.preserve_history, ttl: value }
    }
}

impl Default for SetOptions {
    fn default() -> (r: SetOptions)
        ensures
            r.preserve_history == false,
            r.ttl == 3600000u64,
    {
        SetOptions::new()
    }
}

/// Options for a read.  `history_count` bounds how many versions each
/// matched leaf contributes; zero is treated as one.
pub struct GetOptions {
    pub history_count: usize,
}

impl GetOptions {
    pub fn new() -> (r: GetOptions)
        ensures
            r.history_count == 1,
    {
        GetOptions { history_count: 1 }
    }

    pub fn history_count(self, count: usize) -> (r: GetOptions)
        ensures
            r.history_count == count,
    {
        GetOptions { history_count: count }
    }
}

impl Default for GetOptions {
    fn default() -> (r: GetOptions)
        ensures
            r.history_count == 1,
    {
        GetOptions::new()
    }
}

/// Whether a write preserves history; absent options overwrite.
pub open spec fn spec_preserve(options: Option<SetOptions>) -> bool {
    match options {
        Some(o) => o.preserve_history,
        None => false,
    }
}

} // verus!

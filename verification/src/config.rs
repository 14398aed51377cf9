//! Configuration surface of the utility: history bound, poll period and
//! window dimensions (in whole pixels).

use vstd::prelude::*;

verus! {

#[derive(Clone, Copy, Debug)]
pub struct Config {
    /// Largest number of entries the history retains.
    pub max_size: usize,
    /// Period of the clipboard poll, in milliseconds.
    pub poll_interval_ms: u64,
    /// Width of the search window, in pixels.
    pub window_width: u32,
    /// Height of the search window, in pixels.
    pub window_height: u32,
}

impl Default for Config {
    fn default() -> (c: Self)
        ensures
            c.max_size == 100,
            c.poll_interval_ms == 500,
            c.window_width == 400,
            c.window_height == 500,
    {
        Config {
            max_size: 100,
            poll_interval_ms: 500,
            window_width: 400,
            window_height: 500,
        }
    }
}

} // verus!

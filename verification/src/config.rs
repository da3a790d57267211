//! All game configuration that can be set from outside; reading it from the
//! environment happens outside the library.

use vstd::prelude::*;

verus! {

#[derive(Debug)]
pub struct GameConfig {
    pub front_end_url: String,
    pub grid_batch_div: u8,
    pub grid_radius: u32,
    pub locust_url: String,
    pub redis_url: String,
    pub use_benchmark_data: bool,
    pub with_redis_tests: bool,
}

impl Clone for GameConfig {
    fn clone(&self) -> (r: Self)
        ensures
            r == *self,
    {
        GameConfig {
            front_end_url: self.front_end_url.clone(),
            grid_batch_div: self.grid_batch_div,
            grid_radius: self.grid_radius,
            locust_url: self.locust_url.clone(),
            redis_url: self.redis_url.clone(),
            use_benchmark_data: self.use_benchmark_data,
            with_redis_tests: self.with_redis_tests,
        }
    }
}

} // verus!

//! Configuration of the weather, which is off unless a city is given.

use vstd::prelude::*;

verus! {

/// How often the weather is looked up by default, in minutes.
pub const DEFAULT_WEATHER_MINUTES: u64 = 15;

/// Where and how often to look the weather up.
#[derive(Debug)]
pub struct WeatherConfig {
    /// Looked up through the Open-Meteo geocoding API. Weather is off when unset.
    pub city: Option<String>,
    pub refresh_minutes: u64,
}

impl Default for WeatherConfig {
    fn default() -> (config: Self)
        ensures
            config.city is None,
            config.refresh_minutes == DEFAULT_WEATHER_MINUTES,
    {
        WeatherConfig { city: None, refresh_minutes: DEFAULT_WEATHER_MINUTES }
    }
}

} // verus!

//! The status-line icon for the weather at the Big Bell Temple, from the raw
//! fields of an Open-Meteo reading.

use vstd::prelude::*;

verus! {

/// The icon for a reading: thunder, snow, rain (any measured rain, drizzle or
/// showers) and fog win whatever the time of day; otherwise overcast, partly
/// cloudy or clear by day, overcast or a clear moon by night.
/// `rainy` says whether the reading measured any rain.
pub open spec fn weather_glyph(is_day: bool, code: u32, cloud: u32, rainy: bool) -> Seq<char> {
    if 95 <= code <= 99 {
        "⛈️"@
    } else if (71 <= code <= 77) || (85 <= code <= 86) {
        "🌨️"@
    } else if rainy || (51 <= code <= 67) || (80 <= code <= 82) {
        "🌧️"@
    } else if code == 45 || code == 48 {
        "🌫️"@
    } else if is_day {
        if cloud >= 80 || code == 3 {
            "☁️"@
        } else if code == 2 || cloud >= 40 {
            "⛅"@
        } else {
            "☀️"@
        }
    } else if cloud >= 80 || code == 3 {
        "☁️"@
    } else {
        "🌙"@
    }
}

/// The status-line icon for a weather reading (see `weather_glyph`).
pub fn weather_icon(is_day: bool, code: u32, cloud: u32, rainy: bool) -> (icon: &'static str)
    ensures
        icon@ == weather_glyph(is_day, code, cloud, rainy),
{
    if 95 <= code && code <= 99 {
        "⛈️"
    } else if (71 <= code && code <= 77) || (85 <= code && code <= 86) {
        "🌨️"
    } else if rainy || (51 <= code && code <= 67) || (80 <= code && code <= 82) {
        "🌧️"
    } else if code == 45 || code == 48 {
        "🌫️"
    } else if is_day {
        if cloud >= 80 || code == 3 {
            "☁️"
        } else if code == 2 || cloud >= 40 {
            "⛅"
        } else {
            "☀️"
        }
    } else if cloud >= 80 || code == 3 {
        "☁️"
    } else {
        "🌙"
    }
}

} // verus!

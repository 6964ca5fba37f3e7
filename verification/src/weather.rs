//! Current weather from Open-Meteo: what a WMO weather code is called.

use vstd::prelude::*;

verus! {

/// The name of WMO weather interpretation code `code`, as documented by
/// Open-Meteo.
pub open spec fn weather_name(code: u8) -> Seq<char> {
    if code == 0 {
        "Ciel dégagé"@
    } else if code == 1 {
        "Peu nuageux"@
    } else if code == 2 {
        "Nuageux"@
    } else if code == 3 {
        "Couvert"@
    } else if code == 45 || code == 48 {
        "Brouillard"@
    } else if 51 <= code <= 57 {
        "Bruine"@
    } else if code == 61 || code == 80 {
        "Pluie faible"@
    } else if code == 63 || code == 81 {
        "Pluie"@
    } else if code == 65 || code == 82 {
        "Forte pluie"@
    } else if code == 66 || code == 67 {
        "Pluie verglaçante"@
    } else if (71 <= code <= 77) || code == 85 || code == 86 {
        "Neige"@
    } else if 95 <= code <= 99 {
        "Orage"@
    } else {
        "—"@
    }
}

/// Open-Meteo's table, read the other way: each name is given to exactly
/// the codes it documents, so no two rows share a name (clear, mainly clear,
/// partly cloudy and overcast are four different names), and "—" is left for
/// the codes the table does not list.
pub proof fn lemma_each_name_has_its_codes(code: u8)
    ensures
        weather_name(code) == "Ciel dégagé"@ <==> (code == 0),
        weather_name(code) == "Peu nuageux"@ <==> (code == 1),
        weather_name(code) == "Nuageux"@ <==> (code == 2),
        weather_name(code) == "Couvert"@ <==> (code == 3),
        weather_name(code) == "Brouillard"@ <==> (code == 45 || code == 48),
        weather_name(code) == "Bruine"@ <==> (51 <= code <= 57),
        weather_name(code) == "Pluie faible"@ <==> (code == 61 || code == 80),
        weather_name(code) == "Pluie"@ <==> (code == 63 || code == 81),
        weather_name(code) == "Forte pluie"@ <==> (code == 65 || code == 82),
        weather_name(code) == "Pluie verglaçante"@ <==> (code == 66 || code == 67),
        weather_name(code) == "Neige"@ <==> ((71 <= code <= 77) || code == 85 || code == 86),
        weather_name(code) == "Orage"@ <==> (95 <= code <= 99),
        weather_name(code) == "—"@ <==> !((code == 0) || (code == 1) || (code == 2) || (code == 3) || (code == 45 || code == 48) || (51 <= code <= 57) || (code == 61 || code == 80) || (code == 63 || code == 81) || (code == 65 || code == 82) || (code == 66 || code == 67) || ((71 <= code <= 77) || code == 85 || code == 86) || (95 <= code <= 99)),
{
    reveal_strlit("Ciel dégagé");
    assert("Ciel dégagé"@.len() == 11 && "Ciel dégagé"@[0] == 'C');
    reveal_strlit("Peu nuageux");
    assert("Peu nuageux"@.len() == 11 && "Peu nuageux"@[0] == 'P');
    reveal_strlit("Nuageux");
    assert("Nuageux"@.len() == 7 && "Nuageux"@[0] == 'N');
    reveal_strlit("Couvert");
    assert("Couvert"@.len() == 7 && "Couvert"@[0] == 'C');
    reveal_strlit("Brouillard");
    assert("Brouillard"@.len() == 10 && "Brouillard"@[0] == 'B');
    reveal_strlit("Bruine");
    assert("Bruine"@.len() == 6 && "Bruine"@[0] == 'B');
    reveal_strlit("Pluie faible");
    assert("Pluie faible"@.len() == 12 && "Pluie faible"@[0] == 'P');
    reveal_strlit("Pluie");
    assert("Pluie"@.len() == 5 && "Pluie"@[0] == 'P');
    reveal_strlit("Forte pluie");
    assert("Forte pluie"@.len() == 11 && "Forte pluie"@[0] == 'F');
    reveal_strlit("Pluie verglaçante");
    assert("Pluie verglaçante"@.len() == 17 && "Pluie verglaçante"@[0] == 'P');
    reveal_strlit("Neige");
    assert("Neige"@.len() == 5 && "Neige"@[0] == 'N');
    reveal_strlit("Orage");
    assert("Orage"@.len() == 5 && "Orage"@[0] == 'O');
    reveal_strlit("—");
    assert("—"@.len() == 1 && "—"@[0] == '—');
}

/// WMO weather interpretation codes, as documented by Open-Meteo.
pub fn describe(code: u8) -> (name: &'static str)
    ensures
        name@ == weather_name(code),
{
    match code {
        0 => "Ciel dégagé",
        1 => "Peu nuageux",
        2 => "Nuageux",
        3 => "Couvert",
        45 | 48 => "Brouillard",
        51..=57 => "Bruine",
        61 | 80 => "Pluie faible",
        63 | 81 => "Pluie",
        65 | 82 => "Forte pluie",
        66 | 67 => "Pluie verglaçante",
        71..=77 | 85 | 86 => "Neige",
        95..=99 => "Orage",
        _ => "—",
    }
}

/// How long the weather thread waits before its next try.
#[derive(Debug, Clone, Copy, PartialEq, Eq, Structural)]
pub enum WeatherWait {
    /// The configured refresh: the last try brought a reading.
    Refresh,
    /// A minute: the city could not be located, or the forecast not fetched.
    Retry,
}

/// The wait after a try: `fetched` is nothing when the city is still not
/// located, else whether the forecast came. A failed refresh keeps showing
/// the previous reading.
pub fn wait_after(fetched: Option<bool>) -> (wait: WeatherWait)
    ensures
        wait == if fetched == Some(true) {
            WeatherWait::Refresh
        } else {
            WeatherWait::Retry
        },
{
    match fetched {
        Some(true) => WeatherWait::Refresh,
        _ => WeatherWait::Retry,
    }
}

} // verus!

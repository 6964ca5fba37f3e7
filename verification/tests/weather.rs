use thermaltaked::config::WeatherConfig;
use thermaltaked::weather::{describe, wait_after, WeatherWait};

#[test]
fn weather_codes_are_named() {
    assert_eq!(describe(2), "Nuageux");
    assert_eq!(describe(0), "Ciel dégagé");
    assert_eq!(describe(48), "Brouillard");
    assert_eq!(describe(55), "Bruine");
    assert_eq!(describe(80), "Pluie faible");
    assert_eq!(describe(81), "Pluie");
    assert_eq!(describe(82), "Forte pluie");
    assert_eq!(describe(67), "Pluie verglaçante");
    assert_eq!(describe(86), "Neige");
    assert_eq!(describe(99), "Orage");
    assert_eq!(describe(4), "—");
    assert_eq!(describe(255), "—");
}

#[test]
fn a_failed_refresh_is_tried_again_soon() {
    assert_eq!(wait_after(Some(true)), WeatherWait::Refresh);
    assert_eq!(wait_after(Some(false)), WeatherWait::Retry);
    assert_eq!(wait_after(None), WeatherWait::Retry);
}

#[test]
fn weather_is_off_by_default() {
    let config = WeatherConfig::default();
    assert!(config.city.is_none());
    assert_eq!(config.refresh_minutes, 15);
}

use phtheirichthys::config::{NoaaProviderConfig, ProviderConfig, StorageConfig};
use phtheirichthys::race::{next_waypoint, validate_next_waypoint};

#[test]
fn next_waypoint_is_first_unvalidated() {
    assert_eq!(next_waypoint(&vec![true, false, false]), Some(1));
    assert_eq!(next_waypoint(&vec![true, true]), None);
    assert_eq!(next_waypoint(&vec![]), None);
}

#[test]
fn validating_advances_the_course() {
    let mut v = vec![true, false, false];
    validate_next_waypoint(&mut v);
    assert_eq!(v, vec![true, true, false]);
    validate_next_waypoint(&mut v);
    validate_next_waypoint(&mut v);
    assert_eq!(v, vec![true, true, true]);
}

#[test]
fn provider_configs() {
    let config = ProviderConfig::Noaa(NoaaProviderConfig {
        enabled: true,
        gribs: StorageConfig::WebSys { prefix: "gribs".to_string() },
    });
    match config {
        ProviderConfig::Noaa(noaa) => {
            assert!(noaa.enabled);
            let StorageConfig::WebSys { prefix } = noaa.gribs;
            assert_eq!(prefix, "gribs");
        }
        ProviderConfig::Vr => panic!("expected the NOAA provider"),
    }
}

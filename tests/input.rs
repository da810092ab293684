use street_extract::input::{find_default_pbf, has_pbf_extension, DefaultInputError};

fn names(v: &[&str]) -> Vec<String> {
    v.iter().map(|s| s.to_string()).collect()
}

#[test]
fn pbf_extension_is_the_text_after_the_last_dot() {
    assert!(has_pbf_extension("map.pbf"));
    assert!(has_pbf_extension("europe.osm.pbf"));
    assert!(!has_pbf_extension(".pbf"));
    assert!(!has_pbf_extension("map.pbf.bak"));
    assert!(!has_pbf_extension("mappbf"));
    assert!(!has_pbf_extension("map.PBF"));
}

#[test]
fn default_input_is_the_only_pbf() {
    assert_eq!(find_default_pbf(&names(&["a.txt", "b.pbf", "c.osm"])), Ok(1));
    assert_eq!(find_default_pbf(&names(&["a.txt"])), Err(DefaultInputError::NoCandidate));
    assert_eq!(find_default_pbf(&names(&[])), Err(DefaultInputError::NoCandidate));
    assert_eq!(find_default_pbf(&names(&["a.pbf", "b.pbf"])), Err(DefaultInputError::Ambiguous));
}

use privaxy::configuration::{
    filters_metadata_url, home_directory, plan_load, plan_startup, Configuration, ConfigurationError, DirectoryProbe,
    FilterMetadata, LoadStep, StartupStep, BASE_FILTERS_URL,
};

fn entry(name: &str, on: bool) -> FilterMetadata {
    FilterMetadata {
        title: format!("{name} list"),
        group: "ads".to_string(),
        file_name: name.to_string(),
        enabled_by_default: on,
    }
}

#[test]
fn metadata_url_joins_file_name() {
    assert_eq!(filters_metadata_url(BASE_FILTERS_URL).unwrap(), "https://filters.privaxy.net/metadata.json");
    assert_eq!(filters_metadata_url("https://example.org/lists/").unwrap(), "https://example.org/lists/metadata.json");
    assert!(matches!(filters_metadata_url("not a url"), Err(ConfigurationError::InvalidFiltersUrl)));
}

#[test]
fn missing_home_directory_is_an_error() {
    assert!(matches!(home_directory::<String>(None), Err(ConfigurationError::HomeDirectoryNotFound)));
    assert_eq!(home_directory(Some("/home/u".to_string())).unwrap(), "/home/u");
}

#[test]
fn startup_steps() {
    assert_eq!(plan_startup(DirectoryProbe::Present), StartupStep::UseExisting);
    assert_eq!(plan_startup(DirectoryProbe::Missing), StartupStep::CreateThenDefault);
    assert_eq!(plan_startup(DirectoryProbe::Unreadable), StartupStep::DefaultOnly);
}

#[test]
fn default_configuration_enables_default_lists() {
    let c = Configuration::new_default(vec![entry("easylist", true), entry("regional", false), entry("privacy", true)]);
    assert!(c.exclusions.is_empty());
    assert!(c.custom_filters.is_empty());
    assert_eq!(c.filters.len(), 3);
    assert_eq!(c.enabled_filters, vec!["easylist".to_string(), "privacy".to_string()]);
}

#[test]
fn failed_refresh_keeps_previous_state() {
    let mut c = Configuration::new_default(vec![entry("easylist", true)]);
    c.exclusions.push("bank.example.com".to_string());
    c.custom_filters.push("||tracker.example^".to_string());
    let r = c.apply_filter_refresh(Err(ConfigurationError::FilterFetchError));
    assert!(matches!(r, Err(ConfigurationError::FilterFetchError)));
    assert_eq!(c.exclusions, vec!["bank.example.com".to_string()]);
    assert_eq!(c.custom_filters, vec!["||tracker.example^".to_string()]);
    assert_eq!(c.filters.len(), 1);
    assert_eq!(c.filters[0].file_name, "easylist");
    assert!(c.get_exclusion().is_excluded("bank.example.com"));
}

#[test]
fn successful_refresh_replaces_catalog() {
    let mut c = Configuration::new_default(vec![entry("easylist", true)]);
    c.exclusions.push("bank.example.com".to_string());
    assert!(c.apply_filter_refresh(Ok(vec![entry("a", false), entry("b", true)])).is_ok());
    assert_eq!(c.filters.iter().map(|f| f.file_name.clone()).collect::<Vec<_>>(), vec!["a", "b"]);
    assert_eq!(c.exclusions, vec!["bank.example.com".to_string()]);
    assert_eq!(c.enabled_filters, vec!["easylist".to_string()]);
}

#[test]
fn text_form_lists_each_item_on_a_tagged_line() {
    let mut c = Configuration::new_default(vec![entry("easylist", true)]);
    c.exclusions.push("bank.example.com".to_string());
    c.custom_filters.push("||tracker.example^".to_string());
    assert_eq!(c.to_text(), "exclude bank.example.com\nrule ||tracker.example^\nenable easylist\n");
    assert_eq!(Configuration::new_default(Vec::new()).to_text(), "");
}

#[test]
fn text_form_reads_back() {
    let mut c = Configuration::new_default(vec![entry("easylist", true), entry("privacy", true)]);
    c.exclusions.push("a.com".to_string());
    c.exclusions.push("b.com".to_string());
    c.custom_filters.push("@@||ok.example^".to_string());
    let back = Configuration::from_text(&c.to_text()).unwrap();
    assert_eq!(back.exclusions, c.exclusions);
    assert_eq!(back.custom_filters, c.custom_filters);
    assert_eq!(back.enabled_filters, c.enabled_filters);
    assert!(back.filters.is_empty());
}

#[test]
fn text_form_accepts_any_line_order() {
    let c = Configuration::from_text("enable x\nexclude a.com\nrule r1\nexclude b.com\n").unwrap();
    assert_eq!(c.exclusions, vec!["a.com".to_string(), "b.com".to_string()]);
    assert_eq!(c.custom_filters, vec!["r1".to_string()]);
    assert_eq!(c.enabled_filters, vec!["x".to_string()]);
    let empty = Configuration::from_text("").unwrap();
    assert!(empty.exclusions.is_empty());
}

#[test]
fn malformed_text_is_rejected() {
    assert!(matches!(Configuration::from_text("exclude a.com"), Err(ConfigurationError::MalformedConfiguration)));
    assert!(matches!(Configuration::from_text("include a.com\n"), Err(ConfigurationError::MalformedConfiguration)));
    assert!(matches!(Configuration::from_text("exclude a.com\n\n"), Err(ConfigurationError::MalformedConfiguration)));
}

#[test]
fn refresh_hands_back_file_system_error() {
    let mut c = Configuration::new_default(vec![entry("easylist", true)]);
    let failure = std::io::Error::new(std::io::ErrorKind::PermissionDenied, "denied");
    let r = c.apply_filter_refresh(Err(ConfigurationError::FileSystemError(failure)));
    match r {
        Err(ConfigurationError::FileSystemError(e)) => assert_eq!(e.kind(), std::io::ErrorKind::PermissionDenied),
        other => panic!("unexpected {:?}", other),
    }
    assert_eq!(c.filters.len(), 1);
}

#[test]
fn load_steps() {
    assert_eq!(plan_load(DirectoryProbe::Present), LoadStep::ReadFile);
    assert_eq!(plan_load(DirectoryProbe::Missing), LoadStep::WriteDefault);
    assert_eq!(plan_load(DirectoryProbe::Unreadable), LoadStep::ReportError);
}

#[test]
fn host_excluded_twice_is_malformed() {
    assert!(matches!(
        Configuration::from_text("exclude a.com\nrule r\nexclude a.com\n"),
        Err(ConfigurationError::MalformedConfiguration)
    ));
    assert!(Configuration::from_text("exclude a.com\nexclude b.com\nenable a.com\n").is_ok());
}

#[test]
fn items_with_newlines_are_not_storable() {
    let mut c = Configuration::new_default(Vec::new());
    assert!(c.is_storable());
    c.custom_filters.push("a\nb".to_string());
    assert!(!c.is_storable());
}

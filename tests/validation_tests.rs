use zlaunch::config::ConfigSearchProvider;
use zlaunch::validation::{validate_search_provider, validate_theme_name};

fn provider(name: &str, trigger: &str, url: &str) -> ConfigSearchProvider {
    ConfigSearchProvider {
        name: name.to_string(),
        trigger: trigger.to_string(),
        url: url.to_string(),
        icon: "magnifying-glass".to_string(),
    }
}

#[test]
fn valid_provider_has_no_warnings() {
    let p = provider("Google", "!g", "https://www.google.com/search?q={query}");
    assert!(validate_search_provider(&p).is_empty());
}

#[test]
fn provider_missing_query() {
    let p = provider("BadProvider", "!bad", "https://example.com/search");
    let w = validate_search_provider(&p);
    assert_eq!(w.len(), 1);
    assert_eq!(w[0].field, "search_providers.BadProvider.url");
    assert_eq!(
        w[0].message,
        "URL for 'BadProvider' must contain {query} placeholder. Search will not work correctly."
    );
}

#[test]
fn provider_without_scheme() {
    let p = provider("NoProtocol", "!np", "example.com/search?q={query}");
    let w = validate_search_provider(&p);
    assert_eq!(w.len(), 1);
    assert_eq!(w[0].field, "search_providers.NoProtocol.url");
    assert!(w[0].message.contains("http"));
}

#[test]
fn provider_unconventional_trigger() {
    let p = provider("WeirdTrigger", "search", "https://example.com/search?q={query}");
    let w = validate_search_provider(&p);
    assert_eq!(w.len(), 1);
    assert_eq!(w[0].field, "search_providers.WeirdTrigger.trigger");
    assert!(w[0].message.contains("unconventional"));
}

#[test]
fn provider_long_trigger_and_all_warnings() {
    let p = provider("X", "averylongtrigger", "ftp://example.com");
    let w = validate_search_provider(&p);
    assert_eq!(w.len(), 4);
    assert_eq!(w[0].field, "search_providers.X.url");
    assert_eq!(w[1].field, "search_providers.X.url");
    assert_eq!(w[2].field, "search_providers.X.trigger");
    assert_eq!(
        w[3].message,
        "Trigger 'averylongtrigger' is quite long. Shorter triggers are easier to type."
    );
}

#[test]
fn colon_trigger_and_empty_trigger_are_conventional() {
    assert!(validate_search_provider(&provider("A", ":a", "http://a/{query}")).is_empty());
    assert!(validate_search_provider(&provider("A", "", "http://a/{query}")).is_empty());
}

#[test]
fn theme_names() {
    let themes = vec!["default".to_string(), "catppuccin".to_string()];
    assert!(validate_theme_name("catppuccin", &themes));
    assert!(!validate_theme_name("nonexistent-theme-xyz", &themes));
    assert!(!validate_theme_name("Catppuccin", &themes));
}

use geodesic_wallpaper::error::GeodesicError;

#[test]
fn config_error_mentions_message() {
    let e = GeodesicError::config("config.toml missing");
    assert!(e.message().contains("config.toml missing"));
    assert_eq!(e.message(), "Configuration error: config.toml missing");
}

#[test]
fn error_prefixes() {
    assert_eq!(GeodesicError::render("gpu").message(), "Render error: gpu");
    assert_eq!(GeodesicError::surface("nan").message(), "Surface error: nan");
    assert_eq!(GeodesicError::window("no hwnd").message(), "Window error: no hwnd");
    assert!(matches!(GeodesicError::window("w"), GeodesicError::WindowError(m) if m == "w"));
}

use stronghold::errors::PathError;
use stronghold::paths::{home_var_name, resolve_save_dir, resolve_save_path, Platform};

#[test]
fn unix_home_variable() {
    assert_eq!(home_var_name(Platform::Unix).unwrap(), "HOME");
}

#[test]
fn windows_home_variable() {
    assert_eq!(home_var_name(Platform::Windows).unwrap(), "HOMEPATH");
}

#[test]
fn unsupported_platform_is_explicit() {
    assert_eq!(home_var_name(Platform::Unsupported).unwrap_err(), PathError::UnsupportedPlatform);
    let r = resolve_save_path(Platform::Unsupported, Some("/home/u"), "app", "savefile");
    assert_eq!(r.unwrap_err(), PathError::UnsupportedPlatform);
}

#[test]
fn missing_home_is_a_configuration_error() {
    let r = resolve_save_path(Platform::Unix, None, "app", "savefile");
    assert_eq!(r.unwrap_err(), PathError::MissingHome);
}

#[test]
fn resolved_path_shape() {
    let p = resolve_save_path(Platform::Unix, Some("/home/u"), "app", "savefile").unwrap();
    assert_eq!(p, "/home/u/.dive/app/savefile");
}

#[test]
fn resolved_dir_shape() {
    let d = resolve_save_dir(Platform::Windows, Some("C:\\Users\\u"), "tool").unwrap();
    assert_eq!(d, "C:\\Users\\u/.dive/tool");
}

use home_iptv_proxy::failure::{AppError, Status};
use home_iptv_proxy::model::{default_bind, default_refresh, Mode};
use home_iptv_proxy::startup::{admin_password, check_secret, config_path, refresh_seconds};

#[test]
fn the_configuration_has_a_usual_place() {
    assert_eq!(config_path(None), "config/sources.yaml");
    assert_eq!(config_path(Some("x.yaml".to_string())), "x.yaml");
}

#[test]
fn a_password_is_needed() {
    assert_eq!(admin_password(None), Err("IPTV_ADMIN_PASSWORD is required"));
    assert_eq!(
        admin_password(Some(String::new())),
        Err("IPTV_ADMIN_PASSWORD must not be empty")
    );
    assert_eq!(admin_password(Some("p".to_string())), Ok("p".to_string()));
}

#[test]
fn the_secret_has_at_least_thirty_two_characters() {
    assert_eq!(check_secret(&"x".repeat(32)), Ok(()));
    assert_eq!(check_secret(&"密".repeat(32)), Ok(()));
    for short in ["x".repeat(31), "密".repeat(11), String::new()] {
        assert_eq!(
            check_secret(&short),
            Err("signing_secret must have at least 32 characters")
        );
    }
}

#[test]
fn a_refresh_comes_every_minute_at_most() {
    assert_eq!(refresh_seconds(0), 60);
    assert_eq!(refresh_seconds(1), 60);
    assert_eq!(refresh_seconds(30), 1800);
    assert_eq!(refresh_seconds(u64::MAX / 60), u64::MAX / 60 * 60);
}

#[test]
fn defaults() {
    assert_eq!(default_bind(), "0.0.0.0:28788");
    assert_eq!(default_refresh(), 30);
    assert_eq!(Mode::Direct.label(), "直连");
    assert_eq!(Mode::Proxy.label(), "中转");
    assert_eq!(Mode::Direct.access(), "direct");
    assert_eq!(Mode::Proxy.access(), "proxy");
}

#[test]
fn only_an_unauthorized_request_is_challenged() {
    let refusal = AppError(Status::Unauthorized, "");
    assert_eq!(refusal.challenge(), Some("Basic realm=\"Source Management\""));
    for status in [
        Status::BadRequest,
        Status::Forbidden,
        Status::NotFound,
        Status::InternalServerError,
        Status::BadGateway,
    ] {
        assert_eq!(AppError(status, "").challenge(), None);
    }
}

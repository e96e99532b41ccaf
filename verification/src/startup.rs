//! What the service checks before it starts, and when it refreshes.

use vstd::prelude::*;

verus! {

/// Where the configuration is: the given place, or the usual one.
pub fn config_path(given: Option<String>) -> (r: String)
    ensures
        match given {
            Some(path) => r@ == path@,
            None => r@ == "config/sources.yaml"@,
        },
{
    match given {
        Some(path) => path,
        None => "config/sources.yaml".to_owned(),
    }
}

/// The password of the administrator, which must be given and not be empty.
pub fn admin_password(given: Option<String>) -> (r: Result<String, &'static str>)
    ensures
        match given {
            None => r matches Err(message) && message@ == "IPTV_ADMIN_PASSWORD is required"@,
            Some(password) => if password@.len() == 0 {
                r matches Err(message) && message@ == "IPTV_ADMIN_PASSWORD must not be empty"@
            } else {
                r matches Ok(accepted) && accepted@ == password@
            },
        },
{
    match given {
        None => Err("IPTV_ADMIN_PASSWORD is required"),
        Some(password) => {
            if password.as_str().is_empty() {
                Err("IPTV_ADMIN_PASSWORD must not be empty")
            } else {
                Ok(password)
            }
        },
    }
}

/// The fewest characters that the signing secret may have.
pub const SECRET_LENGTH: usize = 32;

/// Whether the signing secret is long enough.
pub fn check_secret(secret: &str) -> (r: Result<(), &'static str>)
    ensures
        match r {
            Ok(_) => secret@.len() >= SECRET_LENGTH,
            Err(message) => secret@.len() < SECRET_LENGTH && message@
                == "signing_secret must have at least 32 characters"@,
        },
{
    if secret.unicode_len() >= SECRET_LENGTH {
        Ok(())
    } else {
        Err("signing_secret must have at least 32 characters")
    }
}

/// The minutes between two refreshes: what is configured, but at least one.
pub open spec fn refresh_interval(minutes: u64) -> int {
    if minutes < 1 {
        1
    } else {
        minutes as int
    }
}

/// The seconds to wait before the next refresh.
pub fn refresh_seconds(minutes: u64) -> (r: u64)
    requires
        refresh_interval(minutes) * 60 <= u64::MAX,
    ensures
        r == refresh_interval(minutes) * 60,
{
    if minutes < 1 {
        60
    } else {
        minutes * 60
    }
}

} // verus!

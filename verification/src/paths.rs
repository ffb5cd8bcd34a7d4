//! Path resolution: a save file lives at
//! `<home>/.dive/<application_id>/<resource_name>`, where `.dive` is the
//! fixed namespace folder that keeps this tool's data apart from user files.
//! The home directory comes from the platform's conventional environment
//! variable; reading it is the host's job, so these functions take its value
//! as an argument and no silent fallback exists.

use vstd::prelude::*;
use vstd::string::StringExecFns;

use crate::errors::PathError;

verus! {

/// The host platform, as far as path conventions go.
#[derive(Clone, Copy, Debug, PartialEq, Eq, Structural)]
pub enum Platform {
    /// A Unix-like desktop system: home in `HOME`.
    Unix,
    /// A Windows-like system: home in `HOMEPATH`.
    Windows,
    /// A platform with no defined home-directory convention.
    Unsupported,
}

/// The directory that holds one application's save files.
pub open spec fn save_dir_seq(home: Seq<char>, app_id: Seq<char>) -> Seq<char> {
    home + "/.dive/"@ + app_id
}

/// The full path of one save file.
pub open spec fn save_path_seq(home: Seq<char>, app_id: Seq<char>, resource: Seq<char>) -> Seq<
    char,
> {
    save_dir_seq(home, app_id) + "/"@ + resource
}

/// The environment variable that names the home directory on `p`, or the
/// explicit not-implemented error where the platform has no convention.
pub fn home_var_name(p: Platform) -> (r: Result<&'static str, PathError>)
    ensures
        match r {
            Ok(v) => (p == Platform::Unix && v@ == "HOME"@) || (p == Platform::Windows && v@
                == "HOMEPATH"@),
            Err(e) => p == Platform::Unsupported && e == PathError::UnsupportedPlatform,
        },
{
    match p {
        Platform::Unix => Ok("HOME"),
        Platform::Windows => Ok("HOMEPATH"),
        Platform::Unsupported => Err(PathError::UnsupportedPlatform),
    }
}

/// The directory for `app_id` under `home`, given the home variable's value
/// if it was set.  An unset variable is a fatal configuration error, reported
/// as such and distinct from the unsupported-platform case.
pub fn resolve_save_dir(p: Platform, home: Option<&str>, app_id: &str) -> (r: Result<
    String,
    PathError,
>)
    ensures
        match r {
            Ok(s) => p != Platform::Unsupported && (home matches Some(h) && s@ == save_dir_seq(
                h@,
                app_id@,
            )),
            Err(e) => {
                &&& (e == PathError::UnsupportedPlatform <==> p == Platform::Unsupported)
                &&& (e == PathError::MissingHome <==> (p != Platform::Unsupported
                    && home is None))
            },
        },
{
    if let Platform::Unsupported = p {
        return Err(PathError::UnsupportedPlatform);
    }
    let h = match home {
        Some(h) => h,
        None => {
            return Err(PathError::MissingHome);
        },
    };
    let mut s = String::from_str(h);
    s.append("/.dive/");
    s.append(app_id);
    proof {
        assert(s@ =~= save_dir_seq(h@, app_id@));
    }
    Ok(s)
}

/// The full save-file path for `(app_id, resource)` under `home`: the
/// application directory, a separator, and the resource name.
pub fn resolve_save_path(p: Platform, home: Option<&str>, app_id: &str, resource: &str) -> (r:
    Result<String, PathError>)
    ensures
        match r {
            Ok(s) => p != Platform::Unsupported && (home matches Some(h) && s@ == save_path_seq(
                h@,
                app_id@,
                resource@,
            )),
            Err(e) => {
                &&& (e == PathError::UnsupportedPlatform <==> p == Platform::Unsupported)
                &&& (e == PathError::MissingHome <==> (p != Platform::Unsupported
                    && home is None))
            },
        },
{
    let mut s = match resolve_save_dir(p, home, app_id) {
        Ok(s) => s,
        Err(e) => {
            return Err(e);
        },
    };
    s.append("/");
    s.append(resource);
    proof {
        if let Some(h) = home {
            assert(s@ =~= save_path_seq(h@, app_id@, resource@));
        }
    }
    Ok(s)
}

} // verus!

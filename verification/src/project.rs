use vstd::prelude::*;
use vstd::string::*;
use crate::sanitize::spec_sanitize;
use crate::sanitize::sanitize_dir_name;

verus! {

/// The storage directory for the current project: the tool's namespace
/// under the home directory, extended by the sanitized remote identity
/// when one is known; the bare namespace directory is the fallback.
pub fn project_dir_path(home: &str, remote_url: Option<&str>) -> (r: String)
    ensures
        match remote_url {
            Some(u) => r@ == home@ + "/.td/"@ + spec_sanitize(u@),
            None => r@ == home@ + "/.td"@,
        },
{
    let mut out = home.to_owned();
    match remote_url {
        Some(u) => {
            out.append("/.td/");
            let seg = sanitize_dir_name(u);
            out.append(seg.as_str());
        },
        None => {
            out.append("/.td");
        },
    }
    out
}

} // verus!

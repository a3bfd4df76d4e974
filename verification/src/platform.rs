//! Standard-library calls that vstd gives no specification, each behind one trusted item.
use std::sync::Arc;
use vstd::prelude::*;

verus! {

/// `std::time::Instant`, carried through as an opaque value.
#[verifier::external_type_specification]
#[verifier::external_body]
pub struct ExInstant(std::time::Instant);

/// Whether `Path::new(path).starts_with(base)` holds: the components of `base` are the
/// leading components of `path`. How a path splits into components depends on the platform
/// the library is built for.
pub uninterp spec fn path_has_prefix(path: Seq<char>, base: Seq<char>) -> bool;

/// Whether `Path::new(path).is_absolute()` holds: the path is absolute on the platform the
/// library is built for.
pub uninterp spec fn path_is_absolute(path: Seq<char>) -> bool;

/// The value that `Duration::from_secs(secs)` returns.
pub uninterp spec fn duration_of_secs(secs: u64) -> core::time::Duration;

/// Calls `Arc::clone`, which returns a new pointer to the same allocation, so the value
/// pointed to is the one `a` points to.
#[verifier::external_body]
pub fn share<T>(a: &Arc<T>) -> (r: Arc<T>)
    ensures
        r == *a,
{
    a.clone()
}

/// Calls `Path::starts_with` on the characters of `path` and `base` read as paths; the
/// result is named `path_has_prefix` and not described further here.
#[verifier::external_body]
pub fn path_starts_with(path: &[char], base: &[char]) -> (r: bool)
    ensures
        r == path_has_prefix(path@, base@),
{
    let path: String = path.iter().collect();
    let base: String = base.iter().collect();
    std::path::Path::new(&path).starts_with(&base)
}

/// Calls `Path::is_absolute` on `path` read as a path; the result is named
/// `path_is_absolute` and not described further here.
#[verifier::external_body]
pub fn path_absolute(path: &str) -> (r: bool)
    ensures
        r == path_is_absolute(path@),
{
    std::path::Path::new(path).is_absolute()
}

/// Calls `Instant::now`; nothing is claimed of the time it returns.
#[verifier::external_body]
pub fn instant_now() -> std::time::Instant {
    std::time::Instant::now()
}

/// Calls `Duration::from_secs`; its result is named `duration_of_secs`.
#[verifier::external_body]
pub fn duration_from_secs(secs: u64) -> (r: core::time::Duration)
    ensures
        r == duration_of_secs(secs),
{
    core::time::Duration::from_secs(secs)
}

} // verus!

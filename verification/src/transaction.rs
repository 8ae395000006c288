use vstd::prelude::*;

verus! {

/// What to do about the output directory before fetching or rendering
/// anything.
pub enum Preflight {
    /// Create the output root and render into it.
    Proceed,
    /// Remove whatever is at the output path, then create and render.
    RemoveThenProceed,
    /// Stop before any fetch or render step; the existing directory is left
    /// untouched.
    Fail,
}

/// Decides the fate of the output directory before the operation touches
/// anything: with `force` an existing directory is removed first; without
/// it, an existing non-empty directory stops the operation at once.
pub fn preflight_output(force: bool, out_exists: bool, out_nonempty: bool) -> (r: Preflight)
    ensures
        force ==> r is RemoveThenProceed,
        !force && out_exists && out_nonempty ==> r is Fail,
        !force && !(out_exists && out_nonempty) ==> r is Proceed,
{
    if force {
        Preflight::RemoveThenProceed
    } else if out_exists && out_nonempty {
        Preflight::Fail
    } else {
        Preflight::Proceed
    }
}

/// The cleanup owed at the end of one generate attempt.
pub struct CleanupPlan {
    /// Remove the temporary fetched source; owed whenever one was fetched,
    /// on success and on failure alike.
    pub remove_temp: bool,
    /// Remove the whole output root, so that no partial scaffold survives;
    /// owed exactly when rendering failed.
    pub remove_output: bool,
}

/// Decides the cleanup after rendering: a fetched temporary source is always
/// removed; the output root is removed exactly when the render failed, so
/// the output directory is either a complete rendered tree or absent.
pub fn conclude(render_ok: bool, fetched_temp: bool) -> (r: CleanupPlan)
    ensures
        r.remove_temp == fetched_temp,
        r.remove_output == !render_ok,
{
    CleanupPlan { remove_temp: fetched_temp, remove_output: !render_ok }
}

} // verus!

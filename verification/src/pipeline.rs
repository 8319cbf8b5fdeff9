use vstd::prelude::*;

verus! {

/// One region's immutable update settings, read once at startup and never
/// changed: the region code, the package-name substring filter, the
/// installation root, the session-file sub-path (components relative to the
/// installation root), the navigation-data sub-path (components relative to
/// the extracted package root), and the profile-filename prefix.
pub struct RegionConfig {
    pub fir: String,
    pub package_name: String,
    pub es_path: String,
    pub asr_path: Vec<String>,
    pub navdata_path: Vec<String>,
    pub prf_prefix: String,
}

/// The pipeline stages of one region's update, in the order they run.
#[derive(Clone, Copy, Debug, PartialEq, Eq, Structural)]
pub enum Stage {
    ResolveLink,
    Download,
    Extract,
    InstallAll,
    InstallNavData,
    PatchProfiles,
    ClearSessions,
    Done,
}

/// The fixed stage order of one region's run.
pub open spec fn spec_next_stage(s: Stage) -> Stage {
    match s {
        Stage::ResolveLink => Stage::Download,
        Stage::Download => Stage::Extract,
        Stage::Extract => Stage::InstallAll,
        Stage::InstallAll => Stage::InstallNavData,
        Stage::InstallNavData => Stage::PatchProfiles,
        Stage::PatchProfiles => Stage::ClearSessions,
        Stage::ClearSessions => Stage::Done,
        Stage::Done => Stage::Done,
    }
}

/// The stage a region's run starts at.
pub fn first_stage() -> (r: Stage)
    ensures
        r == Stage::ResolveLink,
{
    Stage::ResolveLink
}

/// The orchestrator's policy for one region: after a stage completes, the
/// next stage in the fixed order runs; after a failure the region's run is
/// over at once — fail fast, no retry, no cleanup of already-copied files.
pub fn next_stage(s: Stage, succeeded: bool) -> (r: Option<Stage>)
    ensures
        r == (if succeeded {
            Some(spec_next_stage(s))
        } else {
            None::<Stage>
        }),
{
    if !succeeded {
        return None;
    }
    Some(
        match s {
            Stage::ResolveLink => Stage::Download,
            Stage::Download => Stage::Extract,
            Stage::Extract => Stage::InstallAll,
            Stage::InstallAll => Stage::InstallNavData,
            Stage::InstallNavData => Stage::PatchProfiles,
            Stage::PatchProfiles => Stage::ClearSessions,
            Stage::ClearSessions => Stage::Done,
            Stage::Done => Stage::Done,
        },
    )
}

} // verus!

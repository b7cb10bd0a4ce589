use vstd::prelude::*;
use crate::gui::UpdateRepositoryMode;

verus! {

// ---------------------------------------------------------------------------------------
// When the environment is read again and its packages loaded again.

/// Settings read less than this long ago (in nanoseconds) are not read again.
pub const SETTINGS_FRESH_NANOS: u128 = 1_000_000_000;

/// Packages loaded more than this long ago (in nanoseconds, five minutes) are outdated.
pub const PACKAGES_OUTDATED_NANOS: u128 = 300_000_000_000;

/// Which packages to load again.
#[derive(Clone, Copy, Debug, PartialEq, Eq, Structural)]
pub enum PackageLoad {
    /// None.
    Keep,
    /// Those of every repository, fetched again.
    Remote,
    /// Those of the user's package folders only.
    Local,
}

/// What to do when the environment is asked for.
#[derive(Clone, Copy, Debug, PartialEq, Eq, Structural)]
pub struct EnvironmentStep {
    /// Read the environment for the first time.
    pub create: bool,
    /// Read the settings files of the loaded environment again.
    pub reload_settings: bool,
    /// The packages to load again; after a load, the time of the last load is now and the
    /// environment's version is one more (wrapping).
    pub load: PackageLoad,
}

/// Whether the time since the last load of packages, if there was one, makes them outdated.
pub open spec fn packages_outdated(since_packages: Option<u128>) -> bool {
    match since_packages {
        Some(t) => t > PACKAGES_OUTDATED_NANOS,
        None => true,
    }
}

/// What to do when the environment is asked for with `mode`: when none is loaded, read it and
/// load the packages unless `mode` asks for no update (only the local ones for
/// `IfOutdatedOrNecessaryForLocal`); when one is loaded, read its settings again unless they
/// were read less than a second ago, and load the packages when forced, or, for the two
/// `IfOutdated...` modes, when they are outdated.
pub open spec fn environment_step_for(
    loaded: bool,
    since_settings: Option<u128>,
    since_packages: Option<u128>,
    mode: UpdateRepositoryMode,
) -> EnvironmentStep {
    if !loaded {
        EnvironmentStep {
            create: true,
            reload_settings: false,
            load: match mode {
                UpdateRepositoryMode::NoUpdate => PackageLoad::Keep,
                UpdateRepositoryMode::Force => PackageLoad::Remote,
                UpdateRepositoryMode::IfOutdatedOrNecessary => PackageLoad::Remote,
                UpdateRepositoryMode::IfOutdatedOrNecessaryForLocal => PackageLoad::Local,
            },
        }
    } else {
        EnvironmentStep {
            create: false,
            reload_settings: !(since_settings matches Some(t) && t < SETTINGS_FRESH_NANOS),
            load: match mode {
                UpdateRepositoryMode::NoUpdate => PackageLoad::Keep,
                UpdateRepositoryMode::Force => PackageLoad::Remote,
                UpdateRepositoryMode::IfOutdatedOrNecessary => if packages_outdated(since_packages) {
                    PackageLoad::Remote
                } else {
                    PackageLoad::Keep
                },
                UpdateRepositoryMode::IfOutdatedOrNecessaryForLocal => if packages_outdated(since_packages) {
                    PackageLoad::Local
                } else {
                    PackageLoad::Keep
                },
            },
        }
    }
}

/// What to do when the environment is asked for: `loaded` tells whether one is, and the
/// times are those since its settings were last read and its packages last loaded.
pub fn environment_step(
    loaded: bool,
    since_settings: Option<u128>,
    since_packages: Option<u128>,
    mode: UpdateRepositoryMode,
) -> (r: EnvironmentStep)
    ensures
        r == environment_step_for(loaded, since_settings, since_packages, mode),
{
    if !loaded {
        let load = match mode {
            UpdateRepositoryMode::NoUpdate => PackageLoad::Keep,
            UpdateRepositoryMode::Force => PackageLoad::Remote,
            UpdateRepositoryMode::IfOutdatedOrNecessary => PackageLoad::Remote,
            UpdateRepositoryMode::IfOutdatedOrNecessaryForLocal => PackageLoad::Local,
        };
        return EnvironmentStep { create: true, reload_settings: false, load };
    }
    let fresh = match since_settings {
        Some(t) => t < SETTINGS_FRESH_NANOS,
        None => false,
    };
    let outdated = match since_packages {
        Some(t) => t > PACKAGES_OUTDATED_NANOS,
        None => true,
    };
    let load = match mode {
        UpdateRepositoryMode::NoUpdate => PackageLoad::Keep,
        UpdateRepositoryMode::Force => PackageLoad::Remote,
        UpdateRepositoryMode::IfOutdatedOrNecessary => if outdated {
            PackageLoad::Remote
        } else {
            PackageLoad::Keep
        },
        UpdateRepositoryMode::IfOutdatedOrNecessaryForLocal => if outdated {
            PackageLoad::Local
        } else {
            PackageLoad::Keep
        },
    };
    EnvironmentStep { create: false, reload_settings: !fresh, load }
}

/// The version of the environment after `step`: one more (wrapping) when packages were
/// loaded, the same otherwise.
pub fn environment_version_after(version: u32, step: &EnvironmentStep) -> (r: u32)
    ensures
        r == if step.load == PackageLoad::Keep {
            version as int
        } else {
            (version as int + 1) % 0x1_0000_0000
        },
{
    match step.load {
        PackageLoad::Keep => version,
        _ => version.wrapping_add(1),
    }
}

} // verus!

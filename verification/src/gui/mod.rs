use vstd::prelude::*;
use crate::version::number::string_push_str;
use crate::text::owned;
use crate::version::buf::str_eq;

pub mod logging;
pub mod os;
pub mod project;
pub mod config;
pub mod packages;
pub mod backup;
pub mod templates;
pub mod deep_link;
pub mod environment;

verus! {

// ---------------------------------------------------------------------------------------
// First-run setup.

/// The pages of the first-run setup.
#[derive(Clone, Copy, Debug, PartialEq, Eq, Structural)]
pub enum SetupPages {
    Appearance,
    UnityHub,
    ProjectPath,
    Backups,
    SystemSetting,
}

/// The bit of a page in the setup progress flags.
pub open spec fn page_flag(p: SetupPages) -> u32 {
    match p {
        SetupPages::Appearance => 0x1,
        SetupPages::UnityHub => 0x2,
        SetupPages::ProjectPath => 0x4,
        SetupPages::Backups => 0x8,
        SetupPages::SystemSetting => 0x10,
    }
}

/// The pages in order; macOS has no system setting page.
pub open spec fn setup_pages(is_macos: bool) -> Seq<SetupPages> {
    if is_macos {
        seq![SetupPages::Appearance, SetupPages::UnityHub, SetupPages::ProjectPath, SetupPages::Backups]
    } else {
        seq![
            SetupPages::Appearance,
            SetupPages::UnityHub,
            SetupPages::ProjectPath,
            SetupPages::Backups,
            SetupPages::SystemSetting,
        ]
    }
}

/// Whether the bit of `p` is set in `flags`.
pub open spec fn page_done(p: SetupPages, flags: u32) -> bool {
    flags & page_flag(p) == page_flag(p)
}

impl SetupPages {
    /// The bit of this page in the setup progress flags.
    pub fn as_flag(&self) -> (r: u32)
        ensures
            r == page_flag(*self),
    {
        match self {
            SetupPages::Appearance => 0x00000001,
            SetupPages::UnityHub => 0x00000002,
            SetupPages::ProjectPath => 0x00000004,
            SetupPages::Backups => 0x00000008,
            SetupPages::SystemSetting => 0x00000010,
        }
    }

    /// Whether the progress flags mark this page finished.
    pub fn is_finished(&self, flags: u32) -> (r: bool)
        ensures
            r == page_done(*self, flags),
    {
        flags & self.as_flag() == self.as_flag()
    }

    /// The pages of the setup in order (`is_macos`: the program runs on macOS, which has no
    /// system setting page).
    pub fn pages(is_macos: bool) -> (r: Vec<SetupPages>)
        ensures
            r@ == setup_pages(is_macos),
    {
        let mut v: Vec<SetupPages> = Vec::new();
        v.push(SetupPages::Appearance);
        v.push(SetupPages::UnityHub);
        v.push(SetupPages::ProjectPath);
        v.push(SetupPages::Backups);
        if !is_macos {
            v.push(SetupPages::SystemSetting);
        }
        assert(v@ =~= setup_pages(is_macos));
        v
    }

    /// The route of the page in the front end.
    pub fn path(self) -> (r: &'static str)
        ensures
            r@ == match self {
                SetupPages::Appearance => "/setup/appearance/"@,
                SetupPages::UnityHub => "/setup/unity-hub/"@,
                SetupPages::ProjectPath => "/setup/project-path/"@,
                SetupPages::Backups => "/setup/backups/"@,
                SetupPages::SystemSetting => "/setup/system-setting/"@,
            },
    {
        match self {
            SetupPages::Appearance => "/setup/appearance/",
            SetupPages::UnityHub => "/setup/unity-hub/",
            SetupPages::ProjectPath => "/setup/project-path/",
            SetupPages::Backups => "/setup/backups/",
            SetupPages::SystemSetting => "/setup/system-setting/",
        }
    }
}

/// The setup pages that the progress flags mark finished, in order.
pub fn finished_setup_pages(flags: u32, is_macos: bool) -> (r: Vec<SetupPages>)
    ensures
        r@ == setup_pages(is_macos).filter(|p: SetupPages| page_done(p, flags)),
{
    let pages = SetupPages::pages(is_macos);
    let ghost all = pages@;
    let ghost done = |p: SetupPages| page_done(p, flags);
    let mut out: Vec<SetupPages> = Vec::new();
    let mut i: usize = 0;
    proof {
        reveal(Seq::filter);
        assert(all.take(0) =~= Seq::<SetupPages>::empty());
    }
    while i < pages.len()
        invariant
            i <= all.len(),
            pages@ == all,
            done == (|p: SetupPages| page_done(p, flags)),
            out@ == all.take(i as int).filter(done),
        decreases all.len() - i,
    {
        let p = pages[i];
        proof {
            reveal(Seq::filter);
            assert(all.take(i + 1).drop_last() =~= all.take(i as int));
            assert(all.take(i + 1).last() == p);
        }
        if p.is_finished(flags) {
            out.push(p);
        }
        i = i + 1;
    }
    proof {
        assert(all.take(i as int) =~= all);
    }
    out
}

/// The route of a setup page in the front end.
pub open spec fn page_route(p: SetupPages) -> Seq<char> {
    match p {
        SetupPages::Appearance => "/setup/appearance/"@,
        SetupPages::UnityHub => "/setup/unity-hub/"@,
        SetupPages::ProjectPath => "/setup/project-path/"@,
        SetupPages::Backups => "/setup/backups/"@,
        SetupPages::SystemSetting => "/setup/system-setting/"@,
    }
}

/// The first of `pages` that the progress flags do not mark finished.
pub open spec fn first_unfinished(pages: Seq<SetupPages>, flags: u32) -> Option<SetupPages>
    decreases pages.len(),
{
    if pages.len() == 0 {
        None
    } else if !page_done(pages[0], flags) {
        Some(pages[0])
    } else {
        first_unfinished(pages.drop_first(), flags)
    }
}

/// The route the main window opens on: the first setup page not finished, or the project list
/// once all are.
pub fn start_page(flags: u32, is_macos: bool) -> (r: &'static str)
    ensures
        r@ == match first_unfinished(setup_pages(is_macos), flags) {
            Some(p) => page_route(p),
            None => "/projects/"@,
        },
{
    let pages = SetupPages::pages(is_macos);
    let ghost all = pages@;
    let mut i: usize = 0;
    assert(all.skip(0) =~= all);
    while i < pages.len()
        invariant
            i <= all.len(),
            pages@ == all,
            all == setup_pages(is_macos),
            first_unfinished(all, flags) == first_unfinished(all.skip(i as int), flags),
        decreases all.len() - i,
    {
        let page = pages[i];
        proof {
            assert(all.skip(i as int)[0] == page);
            assert(all.skip(i as int).drop_first() =~= all.skip(i + 1));
        }
        if !page.is_finished(flags) {
            return page.path();
        }
        i = i + 1;
    }
    assert(all.skip(i as int).len() == 0);
    "/projects/"
}

/// Whether a URL's host is `name`.
pub open spec fn host_is(host: Option<&str>, name: Seq<char>) -> bool {
    match host {
        Some(h) => h@ == name,
        None => false,
    }
}

fn host_equals(host: Option<&str>, name: &str) -> (r: bool)
    ensures
        r == host_is(host, name@),
{
    match host {
        Some(h) => str_eq(h, name),
        None => false,
    }
}

/// Whether the main window may navigate to a URL with this scheme and host: the app's own
/// pages (on Windows `http://tauri.localhost` or the host `vrc-get.localhost`, elsewhere the
/// schemes `tauri` and `vrc-get`), and in a debug build the development server on
/// `localhost`.
pub fn navigation_allowed(scheme: &str, host: Option<&str>, windows: bool, debug: bool) -> (r: bool)
    ensures
        r == ((debug && host_is(host, "localhost"@)) || if windows {
            (scheme@ == "http"@ && host_is(host, "tauri.localhost"@)) || host_is(host, "vrc-get.localhost"@)
        } else {
            scheme@ == "tauri"@ || scheme@ == "vrc-get"@
        }),
{
    if debug && host_equals(host, "localhost") {
        return true;
    }
    if windows {
        (str_eq(scheme, "http") && host_equals(host, "tauri.localhost")) || host_equals(host, "vrc-get.localhost")
    } else {
        str_eq(scheme, "tauri") || str_eq(scheme, "vrc-get")
    }
}

/// Whether the saved window size is applied when the main window opens: smaller sizes are
/// left alone.
pub fn restores_window_size(saved: WindowSize) -> (r: bool)
    ensures
        r == (saved.width > 100 && saved.height > 100),
{
    saved.width > 100 && saved.height > 100
}

/// Whether a resize of the main window is recorded: sizes under 100 are ignored (they come
/// from minimising).
pub fn records_resize(size: WindowSize) -> (r: bool)
    ensures
        r == (size.width >= 100 && size.height >= 100),
{
    !(size.width < 100 || size.height < 100)
}

/// What is saved after a recorded resize, as `(fullscreen, size)`: full screen keeps the
/// saved size, otherwise the new size is saved.
pub fn saved_window_state(saved: WindowSize, fullscreen: bool, size: WindowSize) -> (r: (bool, WindowSize))
    ensures
        r == (if fullscreen { (true, saved) } else { (false, size) }),
{
    if fullscreen {
        (true, saved)
    } else {
        (false, size)
    }
}

/// The progress flags after finishing `page`.
pub fn finish_setup_page(flags: u32, page: SetupPages) -> (r: u32)
    ensures
        r == flags | page_flag(page),
{
    flags | page.as_flag()
}

/// Marking a page finished makes it finished and keeps every other page as it was.
pub proof fn lemma_finish_setup_page(flags: u32, page: SetupPages, other: SetupPages)
    ensures
        page_done(page, flags | page_flag(page)),
        other != page ==> (page_done(other, flags | page_flag(page)) <==> page_done(other, flags)),
{
    let f = page_flag(page);
    let g = page_flag(other);
    assert((flags | f) & f == f) by (bit_vector);
    if other != page {
        assert(f == 1 || f == 2 || f == 4 || f == 8 || f == 16);
        assert(g == 1 || g == 2 || g == 4 || g == 8 || g == 16);
        assert(f != g);
        assert(f & g == 0) by (bit_vector)
            requires
                f == 1 || f == 2 || f == 4 || f == 8 || f == 16,
                g == 1 || g == 2 || g == 4 || g == 8 || g == 16,
                f != g;
        assert(((flags | f) & g == g) == (flags & g == g)) by (bit_vector)
            requires
                f & g == 0;
    }
}

// ---------------------------------------------------------------------------------------
// Plain data of the graphical front end.

/// The log levels, most severe first.
#[derive(Clone, Copy, Debug, PartialEq, Eq, Structural)]
pub enum LogLevel {
    Error,
    Warn,
    Info,
    Debug,
    Trace,
}

impl LogLevel {
    /// The text `Display` writes.
    pub fn to_str(self) -> (r: &'static str)
        ensures
            r@ == match self {
                LogLevel::Error => "ERROR"@,
                LogLevel::Warn => "WARN"@,
                LogLevel::Info => "INFO"@,
                LogLevel::Debug => "DEBUG"@,
                LogLevel::Trace => "TRACE"@,
            },
    {
        match self {
            LogLevel::Error => "ERROR",
            LogLevel::Warn => "WARN",
            LogLevel::Info => "INFO",
            LogLevel::Debug => "DEBUG",
            LogLevel::Trace => "TRACE",
        }
    }

    /// The number the level is written as: 1 for `Error` to 5 for `Trace`.
    pub fn as_number(self) -> (r: u8)
        ensures
            1 <= r <= 5,
            r == match self {
                LogLevel::Error => 1u8,
                LogLevel::Warn => 2u8,
                LogLevel::Info => 3u8,
                LogLevel::Debug => 4u8,
                LogLevel::Trace => 5u8,
            },
    {
        match self {
            LogLevel::Error => 1,
            LogLevel::Warn => 2,
            LogLevel::Info => 3,
            LogLevel::Debug => 4,
            LogLevel::Trace => 5,
        }
    }
}

/// The size of the main window.
#[derive(Clone, Copy, Debug, PartialEq, Eq, Structural)]
pub struct WindowSize {
    pub width: u32,
    pub height: u32,
}

impl Default for WindowSize {
    fn default() -> (r: WindowSize)
        ensures
            r == (WindowSize { width: 1300, height: 800 }),
    {
        WindowSize { width: 1300, height: 800 }
    }
}

/// How Unity Hub is asked for its editors.
#[derive(Clone, Copy, Debug, PartialEq, Eq, Structural)]
pub enum UnityHubAccessMethod {
    /// Reads the configuration files of Unity Hub (the default).
    ReadConfig,
    /// Launches a headless Unity Hub in the background.
    CallHub,
}

impl Default for UnityHubAccessMethod {
    fn default() -> (r: UnityHubAccessMethod)
        ensures
            r == UnityHubAccessMethod::ReadConfig,
    {
        UnityHubAccessMethod::ReadConfig
    }
}

/// Why a repository is already there.
#[derive(Clone, Copy, Debug, PartialEq, Eq, Structural)]
pub enum TauriDuplicatedReason {
    URLDuplicated,
    IDDuplicated,
}

/// How adding a user package through the folder picker ended.
#[derive(Clone, Copy, Debug, PartialEq, Eq, Structural)]
pub enum TauriAddUserPackageWithPickerResult {
    NoFolderSelected,
    InvalidSelection,
    AlreadyAdded,
    Successful,
}

/// The Unity editors found, and the recommended version.
#[derive(Debug)]
pub struct TauriUnityVersions {
    /// Path, version and whether it was found through Unity Hub.
    pub unity_paths: Vec<(String, String, bool)>,
    pub recommended_version: String,
    pub install_recommended_version_link: String,
}

/// How calling Unity for a migration ended.
#[derive(Debug)]
pub enum TauriCallUnityForMigrationResult {
    ExistsWithNonZero { status: String },
    FinishedSuccessfully,
}

/// The progress of a project backup.
#[derive(Debug)]
pub struct TauriCreateBackupProgress {
    pub total: usize,
    pub proceed: usize,
    pub last_proceed: String,
}

/// When the repositories are fetched again.
#[derive(Clone, Copy, Debug, PartialEq, Eq, Structural)]
pub enum UpdateRepositoryMode {
    /// Never fetch again.
    NoUpdate,
    Force,
    IfOutdatedOrNecessary,
    IfOutdatedOrNecessaryForLocal,
}

/// What opening a missing path does.
#[derive(Clone, Copy, Debug, PartialEq, Eq, Structural)]
pub enum OpenOptions {
    ErrorIfNotExists,
    CreateFolderIfNotExists,
    OpenParentIfNotExists,
}

/// An update of the program that can be installed.
#[derive(Debug)]
pub struct CheckForUpdateResponse {
    pub version: u32,
    pub current_version: String,
    pub latest_version: String,
    pub update_description: Option<String>,
}

/// The progress of installing an update.
#[derive(Debug)]
pub enum InstallUpgradeProgress {
    DownloadProgress { received: usize, total: Option<u64> },
    DownloadComplete,
}

/// A project as the list of projects shows it.
#[derive(Debug)]
pub struct ProjectRow {
    pub name: String,
    pub path: String,
    pub project_type: String,
    pub unity: String,
    pub favorite: bool,
    pub last_modified_ms: i64,
}

/// The kind of a Unity project, as the project database records it.
#[derive(Clone, Copy, Debug, PartialEq, Eq, Structural)]
pub enum ProjectType {
    Unknown,
    LegacySdk2,
    LegacyWorlds,
    LegacyAvatars,
    UpmWorlds,
    UpmAvatars,
    UpmStarter,
    Worlds,
    Avatars,
    VpmStarter,
}

/// How the list of projects names a kind of project.
pub open spec fn project_type_text(t: ProjectType) -> Seq<char> {
    match t {
        ProjectType::Unknown => "Unknown"@,
        ProjectType::LegacySdk2 => "Legacy SDK2"@,
        ProjectType::LegacyWorlds => "Legacy Worlds"@,
        ProjectType::LegacyAvatars => "Legacy Avatars"@,
        ProjectType::UpmWorlds => "UPM Worlds"@,
        ProjectType::UpmAvatars => "UPM Avatars"@,
        ProjectType::UpmStarter => "UPM Starter"@,
        ProjectType::Worlds => "Worlds"@,
        ProjectType::Avatars => "Avatars"@,
        ProjectType::VpmStarter => "VPM Starter"@,
    }
}

/// How the list of projects names a kind of project.
pub fn project_type_label(t: ProjectType) -> (r: String)
    ensures
        r@ == project_type_text(t),
{
    let label = match t {
        ProjectType::Unknown => "Unknown",
        ProjectType::LegacySdk2 => "Legacy SDK2",
        ProjectType::LegacyWorlds => "Legacy Worlds",
        ProjectType::LegacyAvatars => "Legacy Avatars",
        ProjectType::UpmWorlds => "UPM Worlds",
        ProjectType::UpmAvatars => "UPM Avatars",
        ProjectType::UpmStarter => "UPM Starter",
        ProjectType::Worlds => "Worlds",
        ProjectType::Avatars => "Avatars",
        ProjectType::VpmStarter => "VPM Starter",
    };
    owned(label)
}

impl ProjectRow {
    /// The row of a project of the database that has a path: named by the last component of
    /// the path (the whole path when it has none), its Unity version `unknown` when not
    /// recorded, its time of last change 0 when not recorded.
    pub fn from_user_project(
        path: String,
        file_name: Option<String>,
        project_type: ProjectType,
        unity_version: Option<String>,
        favorite: bool,
        last_modified_ms: Option<i64>,
    ) -> (r: ProjectRow)
        ensures
            r.path@ == path@,
            r.name@ == match file_name {
                Some(n) => n@,
                None => path@,
            },
            r.project_type@ == project_type_text(project_type),
            r.unity@ == match unity_version {
                Some(u) => u@,
                None => "unknown"@,
            },
            r.favorite == favorite,
            r.last_modified_ms == match last_modified_ms {
                Some(t) => t,
                None => 0,
            },
    {
        let name = match file_name {
            Some(n) => n,
            None => owned(path.as_str()),
        };
        let unity = match unity_version {
            Some(u) => u,
            None => owned("unknown"),
        };
        let last_modified_ms = match last_modified_ms {
            Some(t) => t,
            None => 0,
        };
        ProjectRow {
            name,
            path,
            project_type: project_type_label(project_type),
            unity,
            favorite,
            last_modified_ms,
        }
    }
}

/// The bridge to the async runtime was closed.
#[derive(Clone, Copy, Debug, PartialEq, Eq, Structural)]
pub struct BridgeClosed;

impl BridgeClosed {
    /// The text `Display` writes.
    pub fn message(&self) -> (r: String)
        ensures
            r@ == "tokio bridge is closed"@,
    {
        let mut out = String::new();
        string_push_str(&mut out, "tokio bridge is closed");
        out
    }
}

} // verus!

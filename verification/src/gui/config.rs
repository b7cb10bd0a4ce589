use vstd::prelude::*;
use indexmap::IndexSet;
use crate::gui::{LogLevel, UnityHubAccessMethod, WindowSize};
use crate::text::{owned, starts_with, str_strip_prefix};
use crate::version::buf::str_eq;

verus! {

#[verifier::external_type_specification]
#[verifier::external_body]
#[verifier::reject_recursive_types(T)]
#[verifier::reject_recursive_types(S)]
pub struct ExIndexSet<T, S>(IndexSet<T, S>);

/// The texts of a set, in their order.
pub uninterp spec fn string_set_entries(s: IndexSet<String>) -> Seq<Seq<char>>;

/// `IndexSet::new`.
/// Claimed: the set is empty.
#[verifier::external_body]
fn new_string_set() -> (r: IndexSet<String>)
    ensures
        string_set_entries(r) == Seq::<Seq<char>>::empty(),
{
    IndexSet::new()
}

/// `IndexSet::insert`.
/// Claimed: a text already in the set leaves it as it is and gives `false`; a new one is put
/// last and gives `true`.
#[verifier::external_body]
fn string_set_insert(s: &mut IndexSet<String>, value: String) -> (r: bool)
    ensures
        r == !string_set_entries(*old(s)).contains(value@),
        string_set_entries(*final(s)) == if r {
            string_set_entries(*old(s)).push(value@)
        } else {
            string_set_entries(*old(s))
        },
{
    s.insert(value)
}

/// `IndexSet::shift_remove` with a text.
/// Claimed: the text is taken out, the others keep their order; `true` when it was there.
#[verifier::external_body]
fn string_set_shift_remove(s: &mut IndexSet<String>, value: &str) -> (r: bool)
    ensures
        r == string_set_entries(*old(s)).contains(value@),
        string_set_entries(*final(s)) == string_set_entries(*old(s)).filter(|e: Seq<char>| e != value@),
{
    s.shift_remove(value)
}

/// `IndexSet::iter`, each text cloned into a `Vec`.
/// Claimed: the texts of the set, in their order.
#[verifier::external_body]
fn string_set_to_vec(s: &IndexSet<String>) -> (r: Vec<String>)
    ensures
        r@.map_values(|t: String| t@) == string_set_entries(*s),
{
    s.iter().cloned().collect()
}

/// `sys_locale::get_locales`: the locales the user prefers, most preferred first, as BCP 47
/// tags. Nothing is claimed of them: they come from the system.
#[verifier::external_body]
fn system_locales() -> (r: Vec<String>) {
    sys_locale::get_locales().collect()
}

/// The language the interface starts in for the given preferred locales: that of the first
/// locale in English, German, Japanese or Chinese (simplified Chinese for any Chinese), else
/// English.
pub open spec fn language_for(locales: Seq<Seq<char>>) -> Seq<char>
    decreases locales.len(),
{
    if locales.len() == 0 {
        "en"@
    } else if starts_with(locales[0], "en"@) {
        "en"@
    } else if starts_with(locales[0], "de"@) {
        "de"@
    } else if starts_with(locales[0], "ja"@) {
        "ja"@
    } else if starts_with(locales[0], "zh"@) {
        "zh_hans"@
    } else {
        language_for(locales.drop_first())
    }
}

/// The languages the interface can start in.
pub open spec fn is_default_language(l: Seq<char>) -> bool {
    l == "en"@ || l == "de"@ || l == "ja"@ || l == "zh_hans"@
}

pub proof fn lemma_language_for(locales: Seq<Seq<char>>)
    ensures
        is_default_language(language_for(locales)),
    decreases locales.len(),
{
    if locales.len() > 0 {
        lemma_language_for(locales.drop_first());
    }
}

/// The language the interface starts in for the given preferred locales.
pub fn language_for_locales(locales: &[String]) -> (r: String)
    ensures
        r@ == language_for(locales@.map_values(|s: String| s@)),
{
    let ghost all = locales@.map_values(|s: String| s@);
    let en = "en";
    let de = "de";
    let ja = "ja";
    let zh = "zh";
    let zh_hans = "zh_hans";
    let mut i: usize = 0;
    assert(all.skip(0) =~= all);
    while i < locales.len()
        invariant
            i <= locales@.len(),
            all == locales@.map_values(|s: String| s@),
            language_for(all) == language_for(all.skip(i as int)),
            en@ == "en"@,
            de@ == "de"@,
            ja@ == "ja"@,
            zh@ == "zh"@,
            zh_hans@ == "zh_hans"@,
        decreases locales@.len() - i,
    {
        let l = locales[i].as_str();
        proof {
            assert(all.skip(i as int)[0] == l@);
            assert(all.skip(i as int).drop_first() =~= all.skip(i + 1));
        }
        if str_strip_prefix(l, en).is_some() {
            return owned(en);
        }
        if str_strip_prefix(l, de).is_some() {
            return owned(de);
        }
        if str_strip_prefix(l, ja).is_some() {
            return owned(ja);
        }
        if str_strip_prefix(l, zh).is_some() {
            return owned(zh_hans);
        }
        i = i + 1;
    }
    assert(all.skip(i as int) =~= Seq::<Seq<char>>::empty());
    owned(en)
}

/// The language the interface starts in, from the locales the system prefers.
pub fn language_default() -> (r: String)
    ensures
        is_default_language(r@),
{
    let locales = system_locales();
    proof {
        lemma_language_for(locales@.map_values(|s: String| s@));
    }
    language_for_locales(locales.as_slice())
}

/// The theme the interface starts with.
pub fn theme_default() -> (r: String)
    ensures
        r@ == "system"@,
{
    owned("system")
}

/// The format of project backups to start with.
pub fn backup_default() -> (r: String)
    ensures
        r@ == "default"@,
{
    owned("default")
}

/// The order of the project list to start with.
pub fn project_sorting_default() -> (r: String)
    ensures
        r@ == "lastModified"@,
{
    owned("lastModified")
}

/// The release channel to start with.
pub fn release_channel_default() -> (r: String)
    ensures
        r@ == "stable"@,
{
    owned("stable")
}

/// The log levels shown to start with.
pub open spec fn default_log_levels() -> Seq<LogLevel> {
    seq![LogLevel::Debug, LogLevel::Error, LogLevel::Warn, LogLevel::Info]
}

/// The log levels shown to start with: debug, error, warning and information.
pub fn log_level_default() -> (r: Vec<LogLevel>)
    ensures
        r@ == default_log_levels(),
{
    let mut v: Vec<LogLevel> = Vec::new();
    v.push(LogLevel::Debug);
    v.push(LogLevel::Error);
    v.push(LogLevel::Warn);
    v.push(LogLevel::Info);
    assert(v@ =~= default_log_levels());
    v
}

/// Whether the interface is animated to start with.
pub fn gui_animation_default() -> (r: bool)
    ensures
        r,
{
    true
}

/// The settings of the graphical front end.
pub struct GuiConfig {
    pub gui_hidden_repositories: IndexSet<String>,
    pub hide_local_user_packages: bool,
    pub window_size: WindowSize,
    pub fullscreen: bool,
    pub language: String,
    pub theme: String,
    pub backup_format: String,
    pub project_sorting: String,
    /// `stable` or `beta`.
    pub release_channel: String,
    pub use_alcom_for_vcc_protocol: bool,
    pub setup_process_progress: u32,
    pub default_unity_arguments: Option<Vec<String>>,
    pub logs_level: Vec<LogLevel>,
    pub gui_animation: bool,
    pub unity_hub_access_method: UnityHubAccessMethod,
    /// The last one is the most recent.
    pub recent_project_locations: Vec<String>,
}

impl Default for GuiConfig {
    /// The settings before the user changed any: the language from the system's locales.
    fn default() -> (r: GuiConfig)
        ensures
            string_set_entries(r.gui_hidden_repositories) == Seq::<Seq<char>>::empty(),
            !r.hide_local_user_packages,
            r.window_size == (WindowSize { width: 1300, height: 800 }),
            !r.fullscreen,
            is_default_language(r.language@),
            r.theme@ == "system"@,
            r.backup_format@ == "default"@,
            r.project_sorting@ == "lastModified"@,
            r.release_channel@ == "stable"@,
            !r.use_alcom_for_vcc_protocol,
            r.setup_process_progress == 0,
            r.default_unity_arguments is None,
            r.logs_level@ == default_log_levels(),
            r.gui_animation,
            r.unity_hub_access_method == UnityHubAccessMethod::ReadConfig,
            r.recent_project_locations@.len() == 0,
    {
        GuiConfig {
            gui_hidden_repositories: new_string_set(),
            hide_local_user_packages: false,
            window_size: WindowSize { width: 1300, height: 800 },
            fullscreen: false,
            language: language_default(),
            theme: theme_default(),
            backup_format: backup_default(),
            project_sorting: project_sorting_default(),
            release_channel: release_channel_default(),
            use_alcom_for_vcc_protocol: false,
            setup_process_progress: 0,
            default_unity_arguments: None,
            logs_level: log_level_default(),
            gui_animation: true,
            unity_hub_access_method: UnityHubAccessMethod::ReadConfig,
            recent_project_locations: Vec::new(),
        }
    }
}

impl GuiConfig {
    /// Fills in what a settings file left empty and renames an old language: an empty language
    /// becomes the one of the system's locales, `zh_cn` becomes `zh_hans`, an empty backup format
    /// becomes `default`, an empty project order becomes `lastModified`. Nothing else changes.
    pub fn fix_defaults(&mut self)
        ensures
            old(self).language@.len() == 0 ==> is_default_language(final(self).language@),
            old(self).language@ == "zh_cn"@ ==> final(self).language@ == "zh_hans"@,
            old(self).language@.len() != 0 && old(self).language@ != "zh_cn"@
                ==> final(self).language@ == old(self).language@,
            final(self).backup_format@ == if old(self).backup_format@.len() == 0 {
                "default"@
            } else {
                old(self).backup_format@
            },
            final(self).project_sorting@ == if old(self).project_sorting@.len() == 0 {
                "lastModified"@
            } else {
                old(self).project_sorting@
            },
            final(self).gui_hidden_repositories == old(self).gui_hidden_repositories,
            final(self).hide_local_user_packages == old(self).hide_local_user_packages,
            final(self).window_size == old(self).window_size,
            final(self).fullscreen == old(self).fullscreen,
            final(self).theme@ == old(self).theme@,
            final(self).release_channel@ == old(self).release_channel@,
            final(self).use_alcom_for_vcc_protocol == old(self).use_alcom_for_vcc_protocol,
            final(self).setup_process_progress == old(self).setup_process_progress,
            final(self).default_unity_arguments == old(self).default_unity_arguments,
            final(self).logs_level@ == old(self).logs_level@,
            final(self).gui_animation == old(self).gui_animation,
            final(self).unity_hub_access_method == old(self).unity_hub_access_method,
            final(self).recent_project_locations@ == old(self).recent_project_locations@,
    {
        if self.language.as_str().is_empty() {
            self.language = language_default();
        }
        let zh_cn = "zh_cn";
        proof {
            reveal_strlit("zh_cn");
            reveal_strlit("zh_hans");
            reveal_strlit("en");
            reveal_strlit("de");
            reveal_strlit("ja");
        }
        if str_eq(self.language.as_str(), zh_cn) {
            self.language = owned("zh_hans");
        }
        if self.backup_format.as_str().is_empty() {
            self.backup_format = backup_default();
        }
        if self.project_sorting.as_str().is_empty() {
            self.project_sorting = project_sorting_default();
        }
    }

    /// Hides a repository from the package lists.
    pub fn hide_repository(&mut self, repository: String)
        ensures
            string_set_entries(final(self).gui_hidden_repositories) == if string_set_entries(
                old(self).gui_hidden_repositories,
            ).contains(repository@) {
                string_set_entries(old(self).gui_hidden_repositories)
            } else {
                string_set_entries(old(self).gui_hidden_repositories).push(repository@)
            },
    {
        string_set_insert(&mut self.gui_hidden_repositories, repository);
    }

    /// Shows a hidden repository in the package lists again.
    pub fn show_repository(&mut self, repository: &str)
        ensures
            string_set_entries(final(self).gui_hidden_repositories) == string_set_entries(
                old(self).gui_hidden_repositories,
            ).filter(|e: Seq<char>| e != repository@),
    {
        string_set_shift_remove(&mut self.gui_hidden_repositories, repository);
    }

    /// The hidden repositories, in the order they were hidden.
    pub fn hidden_repositories(&self) -> (r: Vec<String>)
        ensures
            r@.map_values(|t: String| t@) == string_set_entries(self.gui_hidden_repositories),
    {
        string_set_to_vec(&self.gui_hidden_repositories)
    }
}

} // verus!

//! The settings that are kept between runs.

use vstd::prelude::*;

use crate::model::{Level, LogBuffer, SavedFilter};
use crate::{model, text};

verus! {

/// The settings.
#[derive(Debug)]
pub struct AppConfig {
    pub package: String,
    pub min_level: Level,
    pub query: String,
    pub use_regex: bool,
    pub case_sensitive: bool,
    pub dark: bool,
    pub show_details: bool,
    pub saved_filters: Vec<SavedFilter>,
    pub memory_limit_mib: usize,
    pub buffers: Vec<LogBuffer>,
}

impl Default for AppConfig {
    fn default() -> (r: AppConfig)
        ensures
            r.package@ == ""@,
            r.min_level == Level::Verbose,
            r.query@ == ""@,
            !r.use_regex,
            !r.case_sensitive,
            r.dark,
            r.show_details,
            r.saved_filters@.len() == 0,
            r.memory_limit_mib == 300,
            r.buffers@ == model::default_buffers(),
    {
        AppConfig {
            package: "".to_owned(),
            min_level: Level::Verbose,
            query: "".to_owned(),
            use_regex: false,
            case_sensitive: false,
            dark: true,
            show_details: true,
            saved_filters: Vec::new(),
            memory_limit_mib: 300,
            buffers: LogBuffer::defaults(),
        }
    }
}

/// A memory budget within its range.
pub open spec fn clamped_limit(mib: int) -> int {
    if mib < 16 {
        16
    } else if mib > 4096 {
        4096
    } else {
        mib
    }
}

/// A memory budget within its range.
pub fn clamp_limit(mib: usize) -> (r: usize)
    ensures
        r == clamped_limit(mib as int),
{
    if mib < 16 {
        16
    } else if mib > 4096 {
        4096
    } else {
        mib
    }
}

impl AppConfig {
    /// The settings as they are used after they were read: the memory budget within
    /// its range and the buffers in order.
    pub fn sanitized(self) -> (r: AppConfig)
        ensures
            r.memory_limit_mib == clamped_limit(self.memory_limit_mib as int),
            r.buffers@ == model::normalized(self.buffers@),
            r == (AppConfig {
                memory_limit_mib: r.memory_limit_mib,
                buffers: r.buffers,
                ..self
            }),
    {
        let mut config = self;
        config.memory_limit_mib = clamp_limit(config.memory_limit_mib);
        LogBuffer::normalize(&mut config.buffers);
        config
    }
}

/// Settings that are in order are used as they are: sanitizing them twice is the
/// same as once.
pub proof fn lemma_sanitized_settings_stay(mib: int, buffers: Seq<LogBuffer>)
    ensures
        clamped_limit(clamped_limit(mib)) == clamped_limit(mib),
        16 <= clamped_limit(mib) <= 4096,
        model::normalized(model::normalized(buffers)) == model::normalized(buffers),
{
    model::lemma_normalize_idempotent(buffers);
}

// ---------------------------------------------------------------------------
// Where the settings are kept
// ---------------------------------------------------------------------------

/// The variables that lead to the settings.
#[derive(Clone, Copy, Debug, Eq, PartialEq, Structural)]
pub enum ConfigVariable {
    CiallogcatConfigDir,
    AppData,
    XdgConfigHome,
    Home,
}

impl ConfigVariable {
    pub fn name(self) -> (r: &'static str)
        ensures
            r@ == (match self {
                ConfigVariable::CiallogcatConfigDir => "CIALLOGCAT_CONFIG_DIR"@,
                ConfigVariable::AppData => "APPDATA"@,
                ConfigVariable::XdgConfigHome => "XDG_CONFIG_HOME"@,
                ConfigVariable::Home => "HOME"@,
            }),
    {
        match self {
            ConfigVariable::CiallogcatConfigDir => "CIALLOGCAT_CONFIG_DIR",
            ConfigVariable::AppData => "APPDATA",
            ConfigVariable::XdgConfigHome => "XDG_CONFIG_HOME",
            ConfigVariable::Home => "HOME",
        }
    }
}

/// Which of the variables are set.
#[derive(Clone, Copy, Debug)]
pub struct ConfigEnvironment {
    pub config_dir: bool,
    pub app_data: bool,
    pub xdg_config_home: bool,
    pub home: bool,
}

/// The path of the settings: what follows a variable, part by part.
#[derive(Debug)]
pub struct ConfigLocation {
    pub root: ConfigVariable,
    pub below: Vec<&'static str>,
}

/// Where the settings are kept: in the directory that is asked for, and else in the
/// usual one of the system.
pub open spec fn location(env: ConfigEnvironment, windows: bool) -> Option<
    (ConfigVariable, Seq<Seq<char>>),
> {
    if env.config_dir {
        Some((ConfigVariable::CiallogcatConfigDir, seq!["config.json"@]))
    } else if windows {
        if env.app_data {
            Some((ConfigVariable::AppData, seq!["Ciallogcat"@, "config.json"@]))
        } else {
            None
        }
    } else if env.xdg_config_home {
        Some((ConfigVariable::XdgConfigHome, seq!["ciallogcat"@, "config.json"@]))
    } else if env.home {
        Some((ConfigVariable::Home, seq![".config"@, "ciallogcat"@, "config.json"@]))
    } else {
        None
    }
}

/// Where the settings are kept.
pub fn config_location(env: ConfigEnvironment, windows: bool) -> (r: Option<ConfigLocation>)
    ensures
        match r {
            Some(place) => location(env, windows) == Some((place.root, text::views(place.below@))),
            None => location(env, windows) is None,
        },
{
    let (root, below): (ConfigVariable, Vec<&'static str>) = if env.config_dir {
        (ConfigVariable::CiallogcatConfigDir, vec!["config.json"])
    } else if windows {
        if !env.app_data {
            return None;
        }
        (ConfigVariable::AppData, vec!["Ciallogcat", "config.json"])
    } else if env.xdg_config_home {
        (ConfigVariable::XdgConfigHome, vec!["ciallogcat", "config.json"])
    } else if env.home {
        (ConfigVariable::Home, vec![".config", "ciallogcat", "config.json"])
    } else {
        return None;
    };
    assert(text::views(below@) =~= (location(env, windows)->0).1);
    Some(ConfigLocation { root, below })
}

/// Whether the settings of the former name of the program are read instead: only
/// where there are none of its own, and never in a directory that was asked for.
pub fn reads_legacy(not_found: bool, config_dir: bool) -> (r: bool)
    ensures
        r == (not_found && !config_dir),
{
    not_found && !config_dir
}

/// The directory of the settings under the former name of the program.
pub fn legacy_directory(windows: bool) -> (r: &'static str)
    ensures
        r@ == (if windows {
            "Ciallocat"@
        } else {
            "ciallocat"@
        }),
{
    if windows {
        "Ciallocat"
    } else {
        "ciallocat"
    }
}

/// A memory budget is between 16 and 4096 mebibytes: one within is used as it is, and any
/// other is brought to the nearer end.
pub proof fn lemma_budget_in_range(mib: int)
    ensures
        16 <= mib <= 4096 ==> clamped_limit(mib) == mib,
        mib < 16 ==> clamped_limit(mib) == 16,
        mib > 4096 ==> clamped_limit(mib) == 4096,
{
}

/// The settings always lie in a file of one name. A directory that was asked for goes
/// before everything; else it is the usual directory of the system, and on systems other
/// than Windows the one that is set goes before the home directory.
pub proof fn lemma_place_of_the_settings(env: ConfigEnvironment, windows: bool)
    ensures
        location(env, windows) matches Some(place) ==> place.1.len() > 0 && place.1.last()
            == "config.json"@,
        env.config_dir ==> location(env, windows) == Some(
            (ConfigVariable::CiallogcatConfigDir, seq!["config.json"@]),
        ),
        !env.config_dir && windows ==> {
            &&& location(env, windows) is Some <==> env.app_data
            &&& location(env, windows) matches Some(place) ==> place.0 == ConfigVariable::AppData
                && place.1.len() == 2 && place.1[0] == "Ciallogcat"@
        },
        !env.config_dir && !windows ==> {
            &&& location(env, windows) is Some <==> env.xdg_config_home || env.home
            &&& location(env, windows) matches Some(place) ==> (place.0
                == ConfigVariable::XdgConfigHome <==> env.xdg_config_home) && (place.0
                == ConfigVariable::Home <==> !env.xdg_config_home) && place.1.len() >= 2
                && place.1[place.1.len() - 2] == "ciallogcat"@
            &&& !env.xdg_config_home && env.home ==> (location(env, windows)->0).1.len() == 3
                && (location(env, windows)->0).1[0] == ".config"@
        },
{
}

} // verus!

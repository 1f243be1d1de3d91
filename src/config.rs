//! The launcher's modules and modes, and search provider settings.
use crate::text::str_eq;
use vstd::prelude::*;

verus! {

/// A configurable component of the launcher.
#[derive(Debug, Clone, Copy, PartialEq, Eq, Hash, Structural)]
pub enum ConfigModule {
    Applications,
    Ai,
    Emojis,
    Calculator,
    Clipboard,
    Actions,
    Search,
    Themes,
    Windows,
}

impl ConfigModule {
    /// Every module, in the default order.
    pub fn all() -> (r: Vec<ConfigModule>)
        ensures
            r@ == seq![
                ConfigModule::Calculator,
                ConfigModule::Windows,
                ConfigModule::Emojis,
                ConfigModule::Clipboard,
                ConfigModule::Actions,
                ConfigModule::Themes,
                ConfigModule::Applications,
                ConfigModule::Ai,
                ConfigModule::Search,
            ],
    {
        let r = vec![
            ConfigModule::Calculator,
            ConfigModule::Windows,
            ConfigModule::Emojis,
            ConfigModule::Clipboard,
            ConfigModule::Actions,
            ConfigModule::Themes,
            ConfigModule::Applications,
            ConfigModule::Ai,
            ConfigModule::Search,
        ];
        assert(r@ =~= seq![
            ConfigModule::Calculator,
            ConfigModule::Windows,
            ConfigModule::Emojis,
            ConfigModule::Clipboard,
            ConfigModule::Actions,
            ConfigModule::Themes,
            ConfigModule::Applications,
            ConfigModule::Ai,
            ConfigModule::Search,
        ]);
        r
    }
}

/// What the launcher shows.
#[derive(Debug, Clone, Copy, PartialEq, Eq, Hash, Structural)]
pub enum LauncherMode {
    /// All enabled modules together.
    Combined,
    Applications,
    Ai,
    Emojis,
    Calculator,
    Clipboard,
    Actions,
    Search,
    Themes,
    Windows,
}

/// The mode that a lower-case name or alias denotes.
pub open spec fn mode_named(s: Seq<char>) -> Option<LauncherMode> {
    if s == "combined"@ {
        Some(LauncherMode::Combined)
    } else if s == "applications"@ || s == "apps"@ || s == "app"@ {
        Some(LauncherMode::Applications)
    } else if s == "ai"@ {
        Some(LauncherMode::Ai)
    } else if s == "emojis"@ || s == "emoji"@ {
        Some(LauncherMode::Emojis)
    } else if s == "calculator"@ || s == "calc"@ {
        Some(LauncherMode::Calculator)
    } else if s == "clipboard"@ {
        Some(LauncherMode::Clipboard)
    } else if s == "actions"@ || s == "action"@ {
        Some(LauncherMode::Actions)
    } else if s == "search"@ {
        Some(LauncherMode::Search)
    } else if s == "themes"@ || s == "theme"@ {
        Some(LauncherMode::Themes)
    } else if s == "windows"@ || s == "window"@ {
        Some(LauncherMode::Windows)
    } else {
        None
    }
}

/// The characters of `s` in lower case, as `str::to_lowercase` gives them.
pub uninterp spec fn lower_of(s: Seq<char>) -> Seq<char>;

/// Relies on `str::to_lowercase`: its result depends on the characters
/// alone.
#[verifier::external_body]
fn lowercase(s: &str) -> (r: String)
    ensures
        r@ == lower_of(s@),
{
    s.to_lowercase()
}

pub open spec fn display_of(m: LauncherMode) -> Seq<char> {
    match m {
        LauncherMode::Combined => "Combined"@,
        LauncherMode::Applications => "Applications"@,
        LauncherMode::Ai => "AI"@,
        LauncherMode::Emojis => "Emojis"@,
        LauncherMode::Calculator => "Calculator"@,
        LauncherMode::Clipboard => "Clipboard"@,
        LauncherMode::Actions => "Actions"@,
        LauncherMode::Search => "Search"@,
        LauncherMode::Themes => "Themes"@,
        LauncherMode::Windows => "Windows"@,
    }
}

pub open spec fn mode_of_module(m: ConfigModule) -> LauncherMode {
    match m {
        ConfigModule::Applications => LauncherMode::Applications,
        ConfigModule::Ai => LauncherMode::Ai,
        ConfigModule::Emojis => LauncherMode::Emojis,
        ConfigModule::Calculator => LauncherMode::Calculator,
        ConfigModule::Clipboard => LauncherMode::Clipboard,
        ConfigModule::Actions => LauncherMode::Actions,
        ConfigModule::Search => LauncherMode::Search,
        ConfigModule::Themes => LauncherMode::Themes,
        ConfigModule::Windows => LauncherMode::Windows,
    }
}

impl LauncherMode {
    /// The mode named by `s`, ignoring case: the name itself or an alias.
    pub fn parse_str(s: &str) -> (r: Option<LauncherMode>)
        ensures
            r == mode_named(lower_of(s@)),
    {
        let l = lowercase(s);
        Self::parse_lowered(l.as_str())
    }

    /// The mode named by `s`, already in lower case.
    pub fn parse_lowered(s: &str) -> (r: Option<LauncherMode>)
        ensures
            r == mode_named(s@),
    {
        if str_eq(s, "combined") {
            Some(LauncherMode::Combined)
        } else if str_eq(s, "applications") || str_eq(s, "apps") || str_eq(s, "app") {
            Some(LauncherMode::Applications)
        } else if str_eq(s, "ai") {
            Some(LauncherMode::Ai)
        } else if str_eq(s, "emojis") || str_eq(s, "emoji") {
            Some(LauncherMode::Emojis)
        } else if str_eq(s, "calculator") || str_eq(s, "calc") {
            Some(LauncherMode::Calculator)
        } else if str_eq(s, "clipboard") {
            Some(LauncherMode::Clipboard)
        } else if str_eq(s, "actions") || str_eq(s, "action") {
            Some(LauncherMode::Actions)
        } else if str_eq(s, "search") {
            Some(LauncherMode::Search)
        } else if str_eq(s, "themes") || str_eq(s, "theme") {
            Some(LauncherMode::Themes)
        } else if str_eq(s, "windows") || str_eq(s, "window") {
            Some(LauncherMode::Windows)
        } else {
            None
        }
    }

    /// The name shown for this mode.
    pub fn display_name(&self) -> (r: &'static str)
        ensures
            r@ == display_of(*self),
    {
        match self {
            LauncherMode::Combined => "Combined",
            LauncherMode::Applications => "Applications",
            LauncherMode::Ai => "AI",
            LauncherMode::Emojis => "Emojis",
            LauncherMode::Calculator => "Calculator",
            LauncherMode::Clipboard => "Clipboard",
            LauncherMode::Actions => "Actions",
            LauncherMode::Search => "Search",
            LauncherMode::Themes => "Themes",
            LauncherMode::Windows => "Windows",
        }
    }

    /// The mode that shows a module on its own.
    pub fn from_module(module: &ConfigModule) -> (r: LauncherMode)
        ensures
            r == mode_of_module(*module),
    {
        match module {
            ConfigModule::Applications => LauncherMode::Applications,
            ConfigModule::Ai => LauncherMode::Ai,
            ConfigModule::Emojis => LauncherMode::Emojis,
            ConfigModule::Calculator => LauncherMode::Calculator,
            ConfigModule::Clipboard => LauncherMode::Clipboard,
            ConfigModule::Actions => LauncherMode::Actions,
            ConfigModule::Search => LauncherMode::Search,
            ConfigModule::Themes => LauncherMode::Themes,
            ConfigModule::Windows => LauncherMode::Windows,
        }
    }

    /// The module that this mode shows; `None` for the combined mode.
    pub fn to_module(&self) -> (r: Option<ConfigModule>)
        ensures
            *self == LauncherMode::Combined ==> r is None,
            r matches Some(m) ==> mode_of_module(m) == *self,
            *self != LauncherMode::Combined ==> r is Some,
    {
        match self {
            LauncherMode::Combined => None,
            LauncherMode::Applications => Some(ConfigModule::Applications),
            LauncherMode::Ai => Some(ConfigModule::Ai),
            LauncherMode::Emojis => Some(ConfigModule::Emojis),
            LauncherMode::Calculator => Some(ConfigModule::Calculator),
            LauncherMode::Clipboard => Some(ConfigModule::Clipboard),
            LauncherMode::Actions => Some(ConfigModule::Actions),
            LauncherMode::Search => Some(ConfigModule::Search),
            LauncherMode::Themes => Some(ConfigModule::Themes),
            LauncherMode::Windows => Some(ConfigModule::Windows),
        }
    }
}

/// A web search provider reached through a trigger word.
#[derive(Debug, Clone, PartialEq, Eq)]
pub struct ConfigSearchProvider {
    /// Provider name.
    pub name: String,
    /// Trigger, such as `!g`.
    pub trigger: String,
    /// URL containing the `{query}` placeholder.
    pub url: String,
    /// Icon name.
    pub icon: String,
}

} // verus!

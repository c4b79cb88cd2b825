use vstd::prelude::*;

verus! {

/// Whether one plugin is switched on.
pub struct PluginSettings {
    pub name: String,
    pub enabled: bool,
}

/// The plugin switches read from the settings file.
pub struct Settings {
    pub plugin_settings: Vec<PluginSettings>,
}

/// The plugin name that is switched on whatever the settings say.
pub open spec fn default_plugin() -> Seq<char> {
    "default"@
}

/// A factory of plugin `p` is registered when `p` is the default plugin or
/// some settings entry names `p` and is enabled.
pub open spec fn plugin_enabled(settings: &Settings, p: Seq<char>) -> bool {
    p == default_plugin() || exists|i: int|
        0 <= i < settings.plugin_settings@.len() && #[trigger] settings.plugin_settings@[i].name@ == p
            && settings.plugin_settings@[i].enabled
}

impl Settings {
    /// Decides whether plugin `p` is switched on.
    pub fn enables(&self, p: &String) -> (r: bool)
        ensures
            r == plugin_enabled(self, p@),
    {
        let default_name = "default".to_owned();
        if *p == default_name {
            return true;
        }
        let mut i: usize = 0;
        while i < self.plugin_settings.len()
            invariant
                i <= self.plugin_settings@.len(),
                p@ != default_plugin(),
                forall|k: int|
                    0 <= k < i ==> !(#[trigger] self.plugin_settings@[k].name@ == p@
                        && self.plugin_settings@[k].enabled),
            decreases self.plugin_settings@.len() - i,
        {
            let s = &self.plugin_settings[i];
            if s.name == *p && s.enabled {
                return true;
            }
            i = i + 1;
        }
        false
    }
}

} // verus!

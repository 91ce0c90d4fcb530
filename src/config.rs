//! User settings of the search window.

use vstd::prelude::*;

verus! {

/// Settings of the search window and of what is indexed.
#[derive(Debug)]
pub struct Config {
    pub window_position: (i32, i32),
    pub window_size: (u32, u32),
    pub page_size: u32,
    pub search_mode: String,
    pub excluded_dirs: Vec<String>,
    pub indexed_drives: Vec<String>,
}

impl Default for Config {
    fn default() -> (r: Config)
        ensures
            r.window_position == (100i32, 100i32),
            r.window_size == (720u32, 70u32),
            r.page_size == 200,
            r.search_mode@ == "index"@,
            r.excluded_dirs@.len() == 4,
            r.excluded_dirs@[0]@ == "System Volume Information"@,
            r.excluded_dirs@[1]@ == "$Recycle.Bin"@,
            r.excluded_dirs@[2]@ == ".git"@,
            r.excluded_dirs@[3]@ == "node_modules"@,
            r.indexed_drives@.len() == 1,
            r.indexed_drives@[0]@ == "C:"@,
    {
        Config {
            window_position: (100, 100),
            window_size: (720, 70),
            page_size: 200,
            search_mode: "index".to_owned(),
            excluded_dirs: vec![
                "System Volume Information".to_owned(),
                "$Recycle.Bin".to_owned(),
                ".git".to_owned(),
                "node_modules".to_owned(),
            ],
            indexed_drives: vec!["C:".to_owned()],
        }
    }
}

/// The settings together with the file they are kept in.
pub struct ConfigManager {
    config_path: String,
    config: Config,
}

impl ConfigManager {
    pub closed spec fn path_spec(&self) -> Seq<char> {
        self.config_path@
    }

    pub closed spec fn config_spec(&self) -> Config {
        self.config
    }

    /// Settings read from `config_path` (or the defaults, when there were none).
    pub fn new(config_path: String, config: Config) -> (r: ConfigManager)
        ensures
            r.path_spec() == config_path@,
            r.config_spec() == config,
    {
        ConfigManager { config_path, config }
    }

    /// The current settings.
    pub fn get(&self) -> (r: &Config)
        ensures
            *r == self.config_spec(),
    {
        &self.config
    }

    /// Replaces the settings; the caller writes them to `path()`.
    pub fn set(&mut self, config: Config)
        ensures
            final(self).config_spec() == config,
            final(self).path_spec() == old(self).path_spec(),
    {
        self.config = config;
    }

    /// The file the settings are kept in.
    pub fn path(&self) -> (r: &str)
        ensures
            r@ == self.path_spec(),
    {
        self.config_path.as_str()
    }
}

} // verus!

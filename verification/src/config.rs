//! The settings of the application.

use crate::text::text_is;
use std::path::PathBuf;
use vstd::prelude::*;

verus! {

/// `std::path::PathBuf`, a path of the file system. Nothing of what it holds
/// is known here.
#[verifier::external_type_specification]
#[verifier::external_body]
pub struct ExPathBuf(PathBuf);

/// How definitions are shown.
#[derive(Debug, Clone)]
pub struct DisplaySettings {
    pub font_family: String,
    pub font_size: String,
    pub line_height: String,
}

/// Where the window stands, and how large it is.
#[derive(Debug, Clone)]
pub struct WindowSettings {
    pub width: u32,
    pub height: u32,
    pub x: Option<i32>,
    pub y: Option<i32>,
}

/// What the application remembers between runs.
#[derive(Debug, Clone)]
pub struct AppConfig {
    pub dictionary_path: PathBuf,
    pub mdx_file: Option<PathBuf>,
    pub mdd_file: Option<PathBuf>,
    pub css_file: Option<PathBuf>,
    pub hotkey: String,
    pub clipboard_monitor: bool,
    pub display: DisplaySettings,
    pub window: WindowSettings,
}

/// Calls `dirs::config_dir`, which gives the user's configuration directory
/// as the platform and the environment define it, or nothing.
#[verifier::external_body]
fn system_config_dir() -> (dir: Option<PathBuf>) {
    dirs::config_dir()
}

/// What `PathBuf::from` makes of a text: the path that the text spells.
pub uninterp spec fn path_of(text: Seq<char>) -> PathBuf;

/// What `Path::join` makes of a path and a further part: the path with the
/// part adjoined.
pub uninterp spec fn joined(base: PathBuf, part: Seq<char>) -> PathBuf;

/// Calls `PathBuf::from` on a text. The result depends on the text alone.
#[verifier::external_body]
fn path_from(text: &str) -> (path: PathBuf)
    ensures
        path == path_of(text@),
{
    PathBuf::from(text)
}

/// Calls `Path::join`, which adjoins a further part to a path. The result
/// depends on the path and the part alone.
#[verifier::external_body]
fn path_join(base: &PathBuf, part: &str) -> (path: PathBuf)
    ensures
        path == joined(*base, part@),
{
    base.join(part)
}

/// The directory of the configuration, given the directory that the
/// platform names for configurations: `rdict` adjoined to that directory,
/// or to the current directory `.` where the platform names none.
pub open spec fn dir_below(system: Option<PathBuf>) -> PathBuf {
    joined(
        match system {
            Some(dir) => dir,
            None => path_of("."@),
        },
        "rdict"@,
    )
}

/// The file of the configuration, given the directory that the platform
/// names for configurations: `config.json` adjoined to the directory of
/// the configuration.
pub open spec fn file_below(system: Option<PathBuf>) -> PathBuf {
    joined(dir_below(system), "config.json"@)
}

/// `PathBuf::clone` gives an equal path.
pub assume_specification[ <PathBuf as Clone>::clone ](path: &PathBuf) -> (copy: PathBuf)
    ensures
        copy == *path,
;

/// Calls `Path::extension`, which gives what follows the last dot of a
/// path's file name, or nothing. An extension that is not Unicode counts
/// as none.
#[verifier::external_body]
fn path_extension(path: &PathBuf) -> (extension: Option<String>) {
    path.extension().and_then(|e| e.to_str()).map(String::from)
}

impl Default for DisplaySettings {
    fn default() -> (settings: DisplaySettings)
        ensures
            settings.font_family@ == "Segoe UI"@,
            settings.font_size@ == "14"@,
            settings.line_height@ == "1.6"@,
    {
        DisplaySettings {
            font_family: "Segoe UI".to_owned(),
            font_size: "14".to_owned(),
            line_height: "1.6".to_owned(),
        }
    }
}

impl Default for WindowSettings {
    fn default() -> (settings: WindowSettings)
        ensures
            settings.width == 600,
            settings.height == 52,
            settings.x is None,
            settings.y is None,
    {
        WindowSettings { width: 600, height: 52, x: None, y: None }
    }
}

impl Default for AppConfig {
    fn default() -> (config: AppConfig)
        ensures
            config.mdx_file is None,
            config.mdd_file is None,
            config.css_file is None,
            config.hotkey@ == "Alt+M"@,
            !config.clipboard_monitor,
            config.display.font_family@ == "Segoe UI"@,
            config.display.font_size@ == "14"@,
            config.display.line_height@ == "1.6"@,
            config.window.width == 600,
            config.window.height == 52,
            config.window.x is None,
            config.window.y is None,
    {
        AppConfig {
            dictionary_path: path_from(""),
            mdx_file: None,
            mdd_file: None,
            css_file: None,
            hotkey: "Alt+M".to_owned(),
            clipboard_monitor: false,
            display: DisplaySettings::default(),
            window: WindowSettings::default(),
        }
    }
}

impl DisplaySettings {
    /// Takes over each setting that is given, and keeps the others.
    pub fn apply(
        &mut self,
        font_family: Option<String>,
        font_size: Option<String>,
        line_height: Option<String>,
    )
        ensures
            final(self).font_family@ == match font_family {
                Some(v) => v@,
                None => old(self).font_family@,
            },
            final(self).font_size@ == match font_size {
                Some(v) => v@,
                None => old(self).font_size@,
            },
            final(self).line_height@ == match line_height {
                Some(v) => v@,
                None => old(self).line_height@,
            },
    {
        if let Some(v) = font_family {
            self.font_family = v;
        }
        if let Some(v) = font_size {
            self.font_size = v;
        }
        if let Some(v) = line_height {
            self.line_height = v;
        }
    }
}

/// The three files that belong to a dictionary.
pub struct DictionaryFiles {
    pub mdx_file: Option<PathBuf>,
    pub mdd_file: Option<PathBuf>,
    pub css_file: Option<PathBuf>,
}

/// The files after a further file with the given extension was seen: a
/// file that ends in `mdx`, `mdd` or `css` takes the place of its kind,
/// any other file changes nothing.
pub open spec fn files_with(files: DictionaryFiles, path: PathBuf, extension: Option<Seq<char>>)
    -> DictionaryFiles {
    if extension == Some("mdx"@) {
        DictionaryFiles { mdx_file: Some(path), ..files }
    } else if extension == Some("mdd"@) {
        DictionaryFiles { mdd_file: Some(path), ..files }
    } else if extension == Some("css"@) {
        DictionaryFiles { css_file: Some(path), ..files }
    } else {
        files
    }
}

/// The text that an optional string holds.
pub open spec fn text_of_option(s: Option<String>) -> Option<Seq<char>> {
    match s {
        Some(t) => Some(t@),
        None => None,
    }
}

/// One entry of a directory: its path and the extension of its file name.
pub type Listed = (PathBuf, Option<Seq<char>>);

/// The files after the first `count` entries of a directory were seen, one
/// after another.
pub open spec fn files_after(files: DictionaryFiles, listing: Seq<Listed>, count: int)
    -> DictionaryFiles
    decreases count,
{
    if count <= 0 {
        files
    } else {
        files_with(
            files_after(files, listing, count - 1),
            listing[count - 1].0,
            listing[count - 1].1,
        )
    }
}

/// The entries that a vector of paths and extensions holds.
pub open spec fn listed(v: Seq<(PathBuf, Option<String>)>) -> Seq<Listed> {
    Seq::new(v.len(), |i: int| (v[i].0, text_of_option(v[i].1)))
}

/// Paths together with extensions, one for each.
pub open spec fn paired(paths: Seq<PathBuf>, extensions: Seq<Option<Seq<char>>>) -> Seq<Listed> {
    Seq::new(paths.len(), |i: int| (paths[i], extensions[i]))
}

impl AppConfig {
    /// The three files of the dictionary.
    pub open spec fn files(&self) -> DictionaryFiles {
        DictionaryFiles {
            mdx_file: self.mdx_file,
            mdd_file: self.mdd_file,
            css_file: self.css_file,
        }
    }

    /// The directory of the configuration below the directory that the
    /// platform names for configurations, if it names one: `rdict` in that
    /// directory, or in the current directory.
    pub fn config_dir_below(system: Option<PathBuf>) -> (dir: PathBuf)
        ensures
            dir == dir_below(system),
    {
        let base = match system {
            Some(dir) => dir,
            None => path_from("."),
        };
        path_join(&base, "rdict")
    }

    /// The directory in which the application keeps its configuration:
    /// `rdict` below the user's configuration directory, or below the
    /// current directory where the platform names none. Which directory the
    /// platform names depends on the environment.
    pub fn config_dir() -> (dir: PathBuf)
        ensures
            exists|system: Option<PathBuf>| dir == #[trigger] dir_below(system),
    {
        let system = system_config_dir();
        AppConfig::config_dir_below(system)
    }

    /// The file in which the application keeps its configuration:
    /// `config.json` in the directory of the configuration.
    pub fn config_file() -> (file: PathBuf)
        ensures
            exists|system: Option<PathBuf>| file == #[trigger] file_below(system),
    {
        let dir = AppConfig::config_dir();
        let ghost system = choose|system: Option<PathBuf>| dir == #[trigger] dir_below(system);
        let file = path_join(&dir, "config.json");
        assert(file == file_below(system));
        file
    }

    /// Takes note of one file of the dictionary's directory, whose
    /// extension is given.
    pub fn note_file(&mut self, path: PathBuf, extension: Option<String>)
        ensures
            final(self).files() == files_with(old(self).files(), path, text_of_option(extension)),
            final(self).dictionary_path == old(self).dictionary_path,
            final(self).hotkey == old(self).hotkey,
            final(self).clipboard_monitor == old(self).clipboard_monitor,
            final(self).display == old(self).display,
            final(self).window == old(self).window,
    {
        match extension {
            Some(e) => {
                if text_is(&e, "mdx") {
                    self.mdx_file = Some(path);
                } else if text_is(&e, "mdd") {
                    self.mdd_file = Some(path);
                } else if text_is(&e, "css") {
                    self.css_file = Some(path);
                }
            },
            None => {},
        }
    }

    /// Sets the dictionary's directory, and takes note of the dictionary
    /// files among the listed entries of that directory, each given with
    /// its extension. Of several files of one kind the last counts.
    pub fn apply_listing(&mut self, path: PathBuf, listing: &Vec<(PathBuf, Option<String>)>)
        ensures
            final(self).dictionary_path == path,
            final(self).files() == files_after(
                old(self).files(),
                listed(listing@),
                listing@.len() as int,
            ),
            final(self).hotkey == old(self).hotkey,
            final(self).clipboard_monitor == old(self).clipboard_monitor,
            final(self).display == old(self).display,
            final(self).window == old(self).window,
    {
        self.dictionary_path = path;
        let mut i: usize = 0;
        while i < listing.len()
            invariant
                i <= listing@.len(),
                self.dictionary_path == path,
                self.files() == files_after(old(self).files(), listed(listing@), i as int),
                self.hotkey == old(self).hotkey,
                self.clipboard_monitor == old(self).clipboard_monitor,
                self.display == old(self).display,
                self.window == old(self).window,
            decreases listing@.len() - i,
        {
            let entry = listing[i].0.clone();
            let extension = match &listing[i].1 {
                Some(e) => Some(e.clone()),
                None => None,
            };
            assert(listed(listing@)[i as int] == (entry, text_of_option(extension)));
            self.note_file(entry, extension);
            i = i + 1;
        }
    }

    /// Sets the dictionary's directory, and takes note of the dictionary
    /// files among the entries of that directory, by the extension that
    /// each entry's file name has. Of several files of one kind the last counts.
    pub fn update_dictionary_path(&mut self, path: PathBuf, entries: &Vec<PathBuf>)
        ensures
            final(self).dictionary_path == path,
            exists|extensions: Seq<Option<Seq<char>>>|
                extensions.len() == entries@.len() && final(self).files() == files_after(
                    old(self).files(),
                    #[trigger] paired(entries@, extensions),
                    entries@.len() as int,
                ),
            final(self).hotkey == old(self).hotkey,
            final(self).clipboard_monitor == old(self).clipboard_monitor,
            final(self).display == old(self).display,
            final(self).window == old(self).window,
    {
        let mut listing: Vec<(PathBuf, Option<String>)> = Vec::new();
        let mut i: usize = 0;
        while i < entries.len()
            invariant
                i <= entries@.len(),
                listing@.len() == i,
                forall|j: int| 0 <= j < i ==> (#[trigger] listing@[j]).0 == entries@[j],
            decreases entries@.len() - i,
        {
            let extension = path_extension(&entries[i]);
            listing.push((entries[i].clone(), extension));
            i = i + 1;
        }
        self.apply_listing(path, &listing);
        proof {
            let extensions = Seq::new(listing@.len(), |j: int| text_of_option(listing@[j].1));
            assert(paired(entries@, extensions) =~= listed(listing@));
        }
    }
}

} // verus!

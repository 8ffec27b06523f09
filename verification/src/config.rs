//! The settings of the server and of the watchers.

use vstd::prelude::*;
use vstd::utf8::*;

use crate::dirs::{config_file_dir, push_component};
use crate::protocol::RingKind;

verus! {

/// How many entries each ring holds before it wraps around.
#[derive(Copy, Clone, Eq, PartialEq, Debug)]
pub struct MaxEntries {
    main: u32,
    favorites: u32,
}

impl MaxEntries {
    pub closed spec fn spec_main(self) -> u32 {
        self.main
    }

    pub closed spec fn spec_favorites(self) -> u32 {
        self.favorites
    }

    /// No ring is without entries.
    #[verifier::type_invariant]
    spec fn wf(self) -> bool {
        self.main > 0 && self.favorites > 0
    }

    /// The limits, unless one of them is zero.
    #[must_use]
    pub fn new(main: u32, favorites: u32) -> (max: Option<MaxEntries>)
        ensures
            max is Some <==> main > 0 && favorites > 0,
            max matches Some(max) ==> max.spec_main() == main && max.spec_favorites() == favorites,
    {
        if main > 0 && favorites > 0 {
            Some(MaxEntries { main, favorites })
        } else {
            None
        }
    }
}

/// The settings of the server.
#[derive(Copy, Clone, Eq, PartialEq, Debug)]
pub struct Config {
    pub max_entries: MaxEntries,
}

impl Config {
    /// The limit of a ring.
    #[must_use]
    pub fn max_entries(&self, kind: RingKind) -> (max: u32)
        ensures
            max == match kind {
                RingKind::Main => self.max_entries.spec_main(),
                RingKind::Favorites => self.max_entries.spec_favorites(),
            },
            max > 0,
    {
        proof {
            use_type_invariant(self.max_entries);
        }
        match kind {
            RingKind::Main => self.max_entries.main,
            RingKind::Favorites => self.max_entries.favorites,
        }
    }
}

impl Default for Config {
    fn default() -> (config: Config)
        ensures
            config.max_entries.spec_main() == 131_070,
            config.max_entries.spec_favorites() == 1022,
    {
        Config { max_entries: MaxEntries { main: 131_070, favorites: 1022 } }
    }
}

/// The settings to go by, given those in the file, or nothing if there is no file.
#[must_use]
pub fn load(file: Option<Config>) -> (config: Config)
    ensures
        match file {
            Some(file) => config == file,
            None => config.max_entries.spec_main() == 131_070
                && config.max_entries.spec_favorites() == 1022,
        },
{
    match file {
        Some(file) => file,
        None => Config::default(),
    }
}

/// The name of the file with the server's settings, in the database's directory.
#[must_use]
pub fn file_name() -> (name: &'static str)
    ensures
        name@ == "config.toml"@,
{
    "config.toml"
}

/// The settings of the X11 watcher.
#[derive(Copy, Clone, Eq, PartialEq, Debug, Structural)]
pub struct X11Config {
    pub auto_paste: bool,
    pub fast_path_optimizations: bool,
}

impl Default for X11Config {
    fn default() -> (config: X11Config)
        ensures
            config == (X11Config { auto_paste: true, fast_path_optimizations: true }),
    {
        X11Config { auto_paste: true, fast_path_optimizations: true }
    }
}

/// The settings of the Wayland watcher.
#[derive(Copy, Clone, Eq, PartialEq, Debug, Structural)]
pub struct WaylandConfig {
    pub auto_paste: bool,
}

impl Default for WaylandConfig {
    fn default() -> (config: WaylandConfig)
        ensures
            config == (WaylandConfig { auto_paste: true }),
    {
        WaylandConfig { auto_paste: true }
    }
}

/// The file with the settings of the X11 watcher, given the user's directory for
/// local settings if there is one.
#[must_use]
pub fn x11_file(local_config: Option<&[u8]>) -> (file: Vec<u8>)
    ensures
        file@ == crate::dirs::joined(
            crate::dirs::spec_config_file_dir(local_config),
            encode_utf8("x11.toml"@),
        ),
{
    let mut file = config_file_dir(local_config);
    push_component(&mut file, "x11.toml".as_bytes());
    file
}

/// The file with the settings of the Wayland watcher, given the user's directory
/// for local settings if there is one.
#[must_use]
pub fn wayland_file(local_config: Option<&[u8]>) -> (file: Vec<u8>)
    ensures
        file@ == crate::dirs::joined(
            crate::dirs::spec_config_file_dir(local_config),
            encode_utf8("wayland.toml"@),
        ),
{
    let mut file = config_file_dir(local_config);
    push_component(&mut file, "wayland.toml".as_bytes());
    file
}

/// Each ring has the limit that was set for it.
pub proof fn lemma_limits_are_kept(main: u32, favorites: u32, config: Config, kind: RingKind, max: u32)
    requires
        call_ensures(MaxEntries::new, (main, favorites), Some(config.max_entries)),
        call_ensures(Config::max_entries, (&config, kind), max),
    ensures
        kind == RingKind::Main ==> max == main,
        kind == RingKind::Favorites ==> max == favorites,
        main > 0,
        favorites > 0,
{
}

/// Without settings, each ring has the limit that rings of its kind have by default.
pub proof fn lemma_limits_by_default(config: Config, kind: RingKind, max: u32, default: u32)
    requires
        call_ensures(load, (None,), config),
        call_ensures(Config::max_entries, (&config, kind), max),
        call_ensures(RingKind::default_max_entries, (&kind,), default),
    ensures
        max == default,
{
}

/// The settings of the two watchers are in different files of one directory.
pub proof fn lemma_watchers_have_own_files(
    local_config: Option<&[u8]>,
    dir: Vec<u8>,
    x11: Vec<u8>,
    wayland: Vec<u8>,
)
    requires
        call_ensures(config_file_dir, (local_config,), dir),
        call_ensures(x11_file, (local_config,), x11),
        call_ensures(wayland_file, (local_config,), wayland),
    ensures
        x11@ == dir@ + encode_utf8("/x11.toml"@),
        wayland@ == dir@ + encode_utf8("/wayland.toml"@),
{
    reveal_strlit("x11.toml");
    reveal_strlit("/x11.toml");
    reveal_strlit("wayland.toml");
    reveal_strlit("/wayland.toml");
    reveal_strlit("ringboard");
    is_ascii_chars_encode_utf8("x11.toml"@);
    is_ascii_chars_encode_utf8("/x11.toml"@);
    is_ascii_chars_encode_utf8("wayland.toml"@);
    is_ascii_chars_encode_utf8("/wayland.toml"@);
    is_ascii_chars_encode_utf8("ringboard"@);
    let name = encode_utf8("ringboard"@);
    assert(dir@.last() == name.last());
    assert(x11@ =~= dir@ + encode_utf8("/x11.toml"@));
    assert(wayland@ =~= dir@ + encode_utf8("/wayland.toml"@));
}

} // verus!

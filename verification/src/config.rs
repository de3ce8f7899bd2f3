//! Putting a configuration together from the user's file and the one of a workspace.

use vstd::prelude::*;

verus! {

/// Why a configuration could not be loaded: its file is no valid configuration, or could not be
/// read.
#[derive(Debug)]
pub enum ConfigLoadError<B, E> {
    BadConfig(B),
    Error(E),
}

/// A configuration file as it is written: a theme, keys and settings of the editor.
#[derive(Debug)]
pub struct ConfigRaw<T, K, V> {
    pub theme: Option<T>,
    pub keys: Option<K>,
    pub editor: Option<V>,
}

/// Where the settings of the editor come from.
#[derive(Debug)]
pub enum EditorSource<V> {
    Default,
    Only(V),
    /// The settings of the workspace, merged over those of the user.
    Merged { global: V, local: V },
}

/// A configuration: the theme, what is merged over the default keys, in order, and the settings.
#[derive(Debug)]
pub struct Config<T, K, V> {
    pub theme: Option<T>,
    pub keys: Vec<K>,
    pub editor: EditorSource<V>,
}

/// The keys of up to two files, the later ones over the earlier ones.
pub open spec fn keys_of<K>(first: Option<K>, second: Option<K>) -> Seq<K> {
    match (first, second) {
        (Some(first), Some(second)) => seq![first, second],
        (Some(first), None) => seq![first],
        (None, Some(second)) => seq![second],
        (None, None) => Seq::empty(),
    }
}

/// Where the settings come from, given those of the user and of the workspace.
pub open spec fn editor_of<V>(global: Option<V>, local: Option<V>) -> EditorSource<V> {
    match (global, local) {
        (Some(global), Some(local)) => EditorSource::Merged { global, local },
        (Some(only), None) => EditorSource::Only(only),
        (None, Some(only)) => EditorSource::Only(only),
        (None, None) => EditorSource::Default,
    }
}

/// Whether the error is that of an invalid file.
pub open spec fn is_bad<C, B, E>(config: Result<C, ConfigLoadError<B, E>>) -> bool {
    config matches Err(ConfigLoadError::BadConfig(_))
}

fn merge_keys<K>(first: Option<K>, second: Option<K>) -> (keys: Vec<K>)
    ensures
        keys@ == keys_of(first, second),
{
    let mut keys: Vec<K> = Vec::new();
    if let Some(first) = first {
        keys.push(first);
    }
    if let Some(second) = second {
        keys.push(second);
    }
    assert(keys@ =~= keys_of(first, second));
    keys
}

impl<T, K, V> Config<T, K, V> {
    /// Whether this is the configuration of the user's file and the one of the workspace.
    pub open spec fn is_of(
        self,
        global: ConfigRaw<T, K, V>,
        local: ConfigRaw<T, K, V>,
    ) -> bool {
        &&& self.theme == (if local.theme is Some {
            local.theme
        } else {
            global.theme
        })
        &&& self.keys@ == keys_of(global.keys, local.keys)
        &&& self.editor == editor_of(global.editor, local.editor)
    }

    /// Whether this is the configuration of a single file.
    pub open spec fn is_of_one(self, only: ConfigRaw<T, K, V>) -> bool {
        &&& self.theme == only.theme
        &&& self.keys@ == keys_of(None, only.keys)
        &&& self.editor == editor_of(None, only.editor)
    }

    /// Puts a configuration together. The workspace's theme, keys and settings go over the user's.
    /// A file that is invalid is an error, the workspace's first; one that cannot be read only is
    /// if neither can.
    pub fn load<B, E>(
        global: Result<ConfigRaw<T, K, V>, ConfigLoadError<B, E>>,
        local: Result<ConfigRaw<T, K, V>, ConfigLoadError<B, E>>,
    ) -> (config: Result<Config<T, K, V>, ConfigLoadError<B, E>>)
        ensures
            match config {
                Ok(config) => match (global, local) {
                    (Ok(global), Ok(local)) => config.is_of(global, local),
                    (Ok(only), Err(ConfigLoadError::Error(_))) => config.is_of_one(only),
                    (Err(ConfigLoadError::Error(_)), Ok(only)) => config.is_of_one(only),
                    _ => false,
                },
                Err(error) => if is_bad(local) {
                    local == Err::<ConfigRaw<T, K, V>, ConfigLoadError<B, E>>(error)
                } else if is_bad(global) {
                    global == Err::<ConfigRaw<T, K, V>, ConfigLoadError<B, E>>(error)
                } else {
                    global == Err::<ConfigRaw<T, K, V>, ConfigLoadError<B, E>>(error) && local is Err
                },
            },
    {
        match (global, local) {
            (Ok(global), Ok(local)) => {
                let theme: Option<T> = match local.theme {
                    Some(theme) => Some(theme),
                    None => global.theme,
                };
                let editor: EditorSource<V> = match (global.editor, local.editor) {
                    (None, None) => EditorSource::Default,
                    (None, Some(only)) => EditorSource::Only(only),
                    (Some(only), None) => EditorSource::Only(only),
                    (Some(global), Some(local)) => EditorSource::Merged { global, local },
                };
                Ok(Config { theme, keys: merge_keys(global.keys, local.keys), editor })
            },
            // if any configs are invalid return that first
            (_, Err(ConfigLoadError::BadConfig(error))) => Err(ConfigLoadError::BadConfig(error)),
            (Err(ConfigLoadError::BadConfig(error)), _) => Err(ConfigLoadError::BadConfig(error)),
            (Ok(only), Err(_)) => Ok(Config::load_one(only)),
            (Err(_), Ok(only)) => Ok(Config::load_one(only)),
            // these are just two io errors return the one for the global config
            (Err(error), Err(_)) => Err(error),
        }
    }

    /// The configuration of a single file.
    fn load_one(only: ConfigRaw<T, K, V>) -> (config: Config<T, K, V>)
        ensures
            config.is_of_one(only),
    {
        let editor: EditorSource<V> = match only.editor {
            Some(only) => EditorSource::Only(only),
            None => EditorSource::Default,
        };
        Config { theme: only.theme, keys: merge_keys(None, only.keys), editor }
    }

    /// The configuration of the user's file, with that of the workspace over it if the workspace is
    /// trusted. Which workspaces are trusted is up to the user's file alone: the second result says
    /// whether that setting has to be taken from it again.
    pub fn load_default<B, E>(
        global: ConfigRaw<T, K, V>,
        local: Result<ConfigRaw<T, K, V>, ConfigLoadError<B, E>>,
        trusted: bool,
    ) -> (config: Result<(Config<T, K, V>, bool), ConfigLoadError<B, E>>)
        ensures
            match config {
                Ok((config, pinned)) => {
                    &&& pinned == trusted
                    &&& if trusted {
                        match local {
                            Ok(local) => config.is_of(global, local),
                            Err(_) => config.is_of_one(global),
                        }
                    } else {
                        config.is_of_one(global)
                    }
                },
                Err(error) => trusted && is_bad(local) && local == Err::<
                    ConfigRaw<T, K, V>,
                    ConfigLoadError<B, E>,
                >(error),
            },
    {
        if !trusted {
            return Ok((Config::load_one(global), false));
        }
        match Config::load(Ok(global), local) {
            Ok(config) => Ok((config, true)),
            Err(error) => Err(error),
        }
    }
}

impl<T, K, V> Config<T, K, V> {
    /// What the workspace configures goes over what the user does: its theme replaces the user's, its
    /// keys come after them, and its settings are merged over them. What it does not configure is the
    /// user's.
    pub proof fn law_the_workspace_goes_over_the_user(
        self,
        global: ConfigRaw<T, K, V>,
        local: ConfigRaw<T, K, V>,
    )
        requires
            self.is_of(global, local),
        ensures
            local.theme is Some ==> self.theme == local.theme,
            local.theme is None ==> self.theme == global.theme,
            global.keys is None && local.keys is None ==> self.keys@.len() == 0,
            global.keys is Some && local.keys is None ==> self.keys@.len() == 1 && self.keys@[0]
                == global.keys->0,
            global.keys is None && local.keys is Some ==> self.keys@.len() == 1 && self.keys@[0]
                == local.keys->0,
            global.keys is Some && local.keys is Some ==> self.keys@.len() == 2 && self.keys@[0]
                == global.keys->0 && self.keys@[1] == local.keys->0,
            global.editor is None && local.editor is None ==> self.editor is Default,
            global.editor is Some && local.editor is None ==> self.editor == EditorSource::Only(
                global.editor->0,
            ),
            global.editor is None && local.editor is Some ==> self.editor == EditorSource::Only(
                local.editor->0,
            ),
            global.editor is Some && local.editor is Some ==> self.editor == (
            EditorSource::Merged { global: global.editor->0, local: local.editor->0 }),
    {
    }

    /// The configuration of a single file is what the file says.
    pub proof fn law_one_file_says_it_all(self, only: ConfigRaw<T, K, V>)
        requires
            self.is_of_one(only),
        ensures
            self.theme == only.theme,
            only.keys is None ==> self.keys@.len() == 0,
            only.keys matches Some(keys) ==> self.keys@ == seq![keys],
            only.editor is None ==> self.editor is Default,
            only.editor matches Some(editor) ==> self.editor == EditorSource::Only(editor),
    {
    }
}

/// Only a file that was read and is invalid is a bad one.
pub proof fn law_only_invalid_files_are_bad<C, B, E>(config: Result<C, ConfigLoadError<B, E>>)
    ensures
        config is Ok ==> !is_bad(config),
        config matches Err(ConfigLoadError::Error(_)) ==> !is_bad(config),
        config matches Err(ConfigLoadError::BadConfig(_)) ==> is_bad(config),
{
}

} // verus!

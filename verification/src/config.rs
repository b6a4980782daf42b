//! The settings the core logic reads.  Discovering, reading and parsing the
//! settings file is a front-end concern; the library receives plain values.

use vstd::prelude::*;

verus! {

/// A metadata field of an application entry that can feed the displayed
/// suffix or the hidden search text.
#[derive(Clone, Copy, Debug, PartialEq, Eq, Structural)]
pub enum Field {
    Comment,
    Id,
    IdSuffix,
    Executable,
    Commandline,
}

/// The options consumed by entry construction, matching, ranking and the
/// query controller.
pub struct Config {
    /// Break ranking ties by the more recently used entry first.
    pub recent_first: bool,
    /// Rank more frequently used entries first.
    pub frequent_first: bool,
    /// Drop history records older than this many days at load time; 0 keeps
    /// all.
    pub prune_history: u32,
    /// The field appended to the display text as a disambiguation suffix
    /// (only the first listed field is consulted).
    pub extra_field: Vec<Field>,
    /// Fields searchable but never shown.
    pub hidden_fields: Vec<Field>,
    /// Display-name overrides by application id; a carriage return in the
    /// override marks the start of the suffix.
    pub name_overrides: Vec<(Vec<u8>, Vec<u8>)>,
    /// Suppress the suffix when the name already contains it.
    pub hide_extra_if_contained: bool,
    /// Query prefix that switches to literal command execution.
    pub command_prefix: Vec<u8>,
    /// Query prefix that switches to browsing user scripts.
    pub script_prefix: Vec<u8>,
    /// Regular expressions; applications whose id matches any are skipped.
    pub exclude: Vec<Vec<u8>>,
}

impl Config {
    /// Machine bounds that keep every byte offset of a built display or
    /// search string within 32 bits.
    pub open spec fn wf(&self) -> bool {
        &&& self.hidden_fields@.len() <= 16
        &&& forall|i: int|
            0 <= i < self.name_overrides@.len() ==> (#[trigger] self.name_overrides@[i]).1@.len()
                <= 0xff_ffff
    }

    /// The built-in value of every option.
    pub fn default_config() -> (r: Config)
        ensures
            r.wf(),
            r.recent_first,
            !r.frequent_first,
            r.prune_history == 0,
            r.extra_field@.len() == 1 && r.extra_field@[0] == Field::IdSuffix,
            r.hidden_fields@.len() == 0,
            r.name_overrides@.len() == 0,
            r.hide_extra_if_contained,
            r.command_prefix@ == seq![58u8],
            r.script_prefix@ == seq![33u8],
            r.exclude@.len() == 0,
    {
        let mut extra_field: Vec<Field> = Vec::new();
        extra_field.push(Field::IdSuffix);
        let mut command_prefix: Vec<u8> = Vec::new();
        command_prefix.push(58);
        let mut script_prefix: Vec<u8> = Vec::new();
        script_prefix.push(33);
        assert(command_prefix@ =~= seq![58u8]);
        assert(script_prefix@ =~= seq![33u8]);
        Config {
            recent_first: true,
            frequent_first: false,
            prune_history: 0,
            extra_field,
            hidden_fields: Vec::new(),
            name_overrides: Vec::new(),
            hide_extra_if_contained: true,
            command_prefix,
            script_prefix,
            exclude: Vec::new(),
        }
    }
}

} // verus!

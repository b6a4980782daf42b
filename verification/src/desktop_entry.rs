//! The plain-value model of a desktop application: the metadata the ranking
//! and display logic reads.  Discovering and parsing the `.desktop` files
//! themselves is a front-end concern; the front-end fills these fields.

use vstd::prelude::*;

use crate::util::{contains_bytes, contains_subseq};

verus! {

/// One additional action a desktop application offers.
pub struct DesktopAction {
    pub name: Vec<u8>,
    pub exec_cmd: Vec<u8>,
}

/// The metadata of one installed application.
pub struct DesktopEntry {
    /// The desktop-file id, e.g. `org.example.App.desktop`.
    pub id: Vec<u8>,
    /// Path of the file the entry came from.
    pub file: Vec<u8>,
    /// The localized display name.
    pub name: Vec<u8>,
    /// The command line to run.
    pub exec_cmd: Vec<u8>,
    pub generic_name: Option<Vec<u8>>,
    pub keywords: Option<Vec<u8>>,
    pub comment: Option<Vec<u8>>,
    pub categories: Option<Vec<u8>>,
    pub icon: Option<Vec<u8>>,
    /// Working directory for the launch, if given.
    pub path: Option<Vec<u8>>,
    /// Run in a terminal.
    pub terminal: bool,
    pub prefers_nondefault_gpu: bool,
    pub actions: Vec<DesktopAction>,
}

impl DesktopEntry {
    /// Machine bounds on the textual fields the display logic combines, so
    /// that byte offsets into built strings stay within 32 bits.
    pub open spec fn wf(&self) -> bool {
        &&& self.id@.len() <= 0xff_ffff
        &&& self.name@.len() <= 0xff_ffff
        &&& self.exec_cmd@.len() <= 0xff_ffff
        &&& (match self.comment {
            Some(c) => c@.len() <= 0xff_ffff,
            None => true,
        })
    }
}

/// Whether a parsed desktop entry is shown at all, from its `Hidden`,
/// `NoDisplay`, `OnlyShowIn` and `NotShowIn` keys and the current desktop
/// environment (the lists are matched by substring, as the front-end hands
/// them over unsplit).
pub open spec fn desktop_entry_visible_spec(
    hidden: bool,
    nodisplay: bool,
    only_show_in: Option<Seq<u8>>,
    not_show_in: Option<Seq<u8>>,
    current_desktop: Option<Seq<u8>>,
) -> bool {
    let blocked_only = match current_desktop {
        Some(x) => match only_show_in {
            Some(s) => !contains_subseq(s, x),
            None => false,
        },
        None => only_show_in is Some,
    };
    let blocked_not = match current_desktop {
        Some(x) => match not_show_in {
            Some(s) => contains_subseq(s, x),
            None => false,
        },
        None => false,
    };
    !(blocked_only || blocked_not || hidden || nodisplay)
}

/// Executable twin of `desktop_entry_visible_spec`.
pub fn desktop_entry_visible(
    hidden: bool,
    nodisplay: bool,
    only_show_in: Option<&Vec<u8>>,
    not_show_in: Option<&Vec<u8>>,
    current_desktop: Option<&Vec<u8>>,
) -> (r: bool)
    ensures
        r == desktop_entry_visible_spec(
            hidden,
            nodisplay,
            match only_show_in {
                Some(s) => Some(s@),
                None => None,
            },
            match not_show_in {
                Some(s) => Some(s@),
                None => None,
            },
            match current_desktop {
                Some(x) => Some(x@),
                None => None,
            },
        ),
{
    let blocked_only = match current_desktop {
        Some(x) => match only_show_in {
            Some(s) => !contains_bytes(s.as_slice(), x.as_slice()),
            None => false,
        },
        None => only_show_in.is_some(),
    };
    let blocked_not = match current_desktop {
        Some(x) => match not_show_in {
            Some(s) => contains_bytes(s.as_slice(), x.as_slice()),
            None => false,
        },
        None => false,
    };
    !(blocked_only || blocked_not || hidden || nodisplay)
}

/// The value of a boolean desktop-file key: only the exact words `true` and
/// `false` count.
pub open spec fn bool_key_spec(s: Seq<u8>) -> Option<bool> {
    if s == seq![116u8, 114u8, 117u8, 101u8] {
        Some(true)
    } else if s == seq![102u8, 97u8, 108u8, 115u8, 101u8] {
        Some(false)
    } else {
        None
    }
}

/// Parse the value of a boolean desktop-file key.
pub fn parse_bool_key(s: &[u8]) -> (r: Option<bool>)
    ensures
        r == bool_key_spec(s@),
{
    if s.len() == 4 && s[0] == 116 && s[1] == 114 && s[2] == 117 && s[3] == 101 {
        assert(s@ =~= seq![116u8, 114u8, 117u8, 101u8]);
        Some(true)
    } else if s.len() == 5 && s[0] == 102 && s[1] == 97 && s[2] == 108 && s[3] == 115 && s[4]
        == 101 {
        assert(s@ =~= seq![102u8, 97u8, 108u8, 115u8, 101u8]);
        Some(false)
    } else {
        proof {
            let t = seq![116u8, 114u8, 117u8, 101u8];
            let f = seq![102u8, 97u8, 108u8, 115u8, 101u8];
            if s@ == t {
                assert(s@.len() == 4 && s@[0] == 116 && s@[1] == 114 && s@[2] == 117 && s@[3]
                    == 101);
            }
            if s@ == f {
                assert(s@.len() == 5 && s@[0] == 102 && s@[1] == 97 && s@[2] == 108 && s@[3] == 115
                    && s@[4] == 101);
            }
        }
        None
    }
}

} // verus!

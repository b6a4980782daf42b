//! The entry model: one launchable item of the list, with its display and
//! search text, markup ranges, match score and usage history.

use vstd::prelude::*;

use crate::config::{Config, Field};
use crate::desktop_entry::DesktopEntry;
use crate::fuzzy::{fuzzy_indices_spec, fuzzy_match, fuzzy_matches, fuzzy_score_spec};
use crate::history::{lookup_spec, History, HistoryData};
use crate::locale::string_collate;
use crate::rank::{rank_cmp_spec, RankKey};
use crate::util::bytes_clone;

verus! {

use core::cmp::Ordering;

/// The style layer an attribute span belongs to; later layers overlay
/// earlier ones.
#[derive(Clone, Copy, Debug, PartialEq, Eq, Structural)]
pub enum AttrLayer {
    /// The style of the whole display text.
    Base,
    /// The style of the appended disambiguation suffix.
    Extra,
    /// The style of one matched byte.
    Highlight,
}

/// One styled half-open byte range `[start, end)` of the display text.
#[derive(Clone, Copy, Debug, PartialEq, Eq, Structural)]
pub struct AttrSpan {
    pub layer: AttrLayer,
    pub start: u32,
    pub end: u32,
}

/// What an entry stands for, and so what activating it does.
pub enum EntryContent {
    /// An installed application.
    Application(DesktopEntry),
    /// A user script at this path.
    Script(Vec<u8>),
    /// One line read from standard input.
    Stdin(Vec<u8>),
}

impl EntryContent {
    /// Does this content describe an installed application?
    pub open spec fn is_application_spec(&self) -> bool {
        self is Application
    }

    /// Executable twin of `is_application_spec`.
    pub fn is_application(&self) -> (r: bool)
        ensures
            r == self.is_application_spec(),
    {
        match self {
            EntryContent::Application(_) => true,
            _ => false,
        }
    }
}

/// What activating an entry asks the front-end to do.
pub enum LaunchAction {
    /// Spawn this application command line, in a terminal when asked.
    RunApp { exec_cmd: Vec<u8>, terminal: bool, working_dir: Option<Vec<u8>> },
    /// Execute this script file.
    RunScript { path: Vec<u8> },
    /// Print this line to standard output.
    PrintLine { text: Vec<u8> },
}

/// The base markup of an entry: one span over the whole display text, plus
/// one over the disambiguation suffix when present.
pub open spec fn base_attrs_spec(display_len: int, extra: Option<(u32, u32)>) -> Seq<AttrSpan> {
    seq![(AttrSpan { layer: AttrLayer::Base, start: 0, end: display_len as u32 })] + (match extra {
        Some(r) => seq![(AttrSpan { layer: AttrLayer::Extra, start: r.0, end: r.1 })],
        None => Seq::empty(),
    })
}

/// One single-byte highlight span per matched offset that falls inside the
/// display text; offsets at or past its end get no visible highlight.
pub open spec fn highlight_attrs_spec(idx: Seq<int>, display_len: int) -> Seq<AttrSpan>
    decreases idx.len(),
{
    if idx.len() == 0 {
        Seq::empty()
    } else {
        highlight_attrs_spec(idx.drop_last(), display_len) + (if idx.last() < display_len {
            seq![
                (AttrSpan {
                    layer: AttrLayer::Highlight,
                    start: idx.last() as u32,
                    end: (idx.last() + 1) as u32,
                }),
            ]
        } else {
            Seq::empty()
        })
    }
}

/// The score an entry gets for a query: 100 for the empty (browse) query,
/// the fuzzy score for a matching query, 0 (hidden) for a failed match.
pub open spec fn matched_score_spec(search: Seq<u8>, pattern: Seq<u8>) -> int {
    if pattern.len() == 0 {
        100
    } else if fuzzy_matches(search, pattern) {
        fuzzy_score_spec(search, pattern)
    } else {
        0
    }
}

/// The markup after matching a query: the base layers, with one highlight
/// span per matched byte of the display text on top.  The set is rebuilt
/// from scratch, so repeating a query accumulates nothing.
pub open spec fn matched_attrs_spec(
    display: Seq<u8>,
    extra: Option<(u32, u32)>,
    search: Seq<u8>,
    pattern: Seq<u8>,
) -> Seq<AttrSpan> {
    base_attrs_spec(display.len() as int, extra) + (if pattern.len() > 0 && fuzzy_matches(
        search,
        pattern,
    ) {
        highlight_attrs_spec(fuzzy_indices_spec(search, pattern), display.len() as int)
    } else {
        Seq::empty()
    })
}

/// Matching is monotonicity-safe: a non-empty query scores 0 — and so hides
/// the entry — exactly when it is no case-folded subsequence of the search
/// string.  A query that embeds into the string never yields 0; trailing
/// bytes that break the embedding always do.
pub proof fn lemma_score_zero_iff_no_subsequence(search: Seq<u8>, pattern: Seq<u8>)
    requires
        pattern.len() > 0,
    ensures
        (matched_score_spec(search, pattern) == 0) <==> !crate::fuzzy::is_subsequence(
            pattern,
            search,
        ),
{
    crate::fuzzy::lemma_match_iff_subsequence(search, pattern);
    if fuzzy_matches(search, pattern) {
        crate::fuzzy::lemma_match_score_positive(search, pattern);
    }
}

/// The history an entry adopts at construction: the stored statistics of its
/// id, with each component zeroed when the config toggle that would use it
/// is off.
pub open spec fn adopted_history_spec(
    found: Option<HistoryData>,
    recent_first: bool,
    frequent_first: bool,
) -> HistoryData {
    let d = match found {
        Some(d) => d,
        None => HistoryData { last_used: 0, usage_count: 0 },
    };
    HistoryData {
        last_used: if recent_first {
            d.last_used
        } else {
            0
        },
        usage_count: if frequent_first {
            d.usage_count
        } else {
            0
        },
    }
}

/// One row of the launcher list.
pub struct Entry {
    /// Stable identifier; the key into the usage history.
    pub id: Vec<u8>,
    /// The text shown to the user.
    pub display_string: Vec<u8>,
    /// The text matched against: the display text plus any hidden fields.
    pub search_string: Vec<u8>,
    /// The key the ranking tie-break compares; the display text by default,
    /// or a locale-transformed form supplied by the front-end.
    pub collate_key: Vec<u8>,
    /// Byte range of the appended disambiguation suffix, if any.
    pub extra_range: Option<(u32, u32)>,
    /// Current match score; 0 means hidden.
    pub score: i64,
    /// Usage statistics adopted at construction.
    pub history: HistoryData,
    /// The current markup spans, lowest layer first.
    pub attrs: Vec<AttrSpan>,
    /// What this entry launches.
    pub content: EntryContent,
}

/// The fields of an entry that matching and hiding never touch.
pub open spec fn same_entry_core(a: Entry, b: Entry) -> bool {
    &&& b.id@ == a.id@
    &&& b.display_string@ == a.display_string@
    &&& b.search_string@ == a.search_string@
    &&& b.collate_key@ == a.collate_key@
    &&& b.extra_range == a.extra_range
    &&& b.history == a.history
    &&& b.content == a.content
}

impl Entry {
    /// Machine bounds: every byte offset of the display and search text fits
    /// in 32 bits, and the suffix range lies within the display text.
    pub open spec fn wf(&self) -> bool {
        &&& self.display_string@.len() <= 0xffff_ffff
        &&& self.search_string@.len() <= 0xffff_ffff
        &&& (match self.extra_range {
            Some(r) => r.0 <= r.1 && r.1 <= self.display_string@.len(),
            None => true,
        })
    }

    /// An entry is hidden exactly when its score is 0.
    pub open spec fn hidden_spec(&self) -> bool {
        self.score == 0
    }

    /// The mathematical ranking key of this entry.
    pub open spec fn rank_key(&self) -> RankKey {
        RankKey {
            score: self.score as int,
            usage_count: self.history.usage_count as int,
            last_used: self.history.last_used as int,
            collate: self.collate_key@,
        }
    }

    /// The stable identifier of this entry.
    pub fn id(&self) -> (r: &Vec<u8>)
        ensures
            r@ == self.id@,
    {
        &self.id
    }

    /// Does this entry launch an installed application?
    pub fn is_application(&self) -> (r: bool)
        ensures
            r == self.content.is_application_spec(),
    {
        self.content.is_application()
    }

    /// Is this entry filtered out of the visible list?
    pub fn hidden(&self) -> (r: bool)
        ensures
            r == self.hidden_spec(),
    {
        0 == self.score
    }

    /// Force the entry out of the visible list, whatever the match said.
    pub fn force_hide(&mut self)
        ensures
            same_entry_core(*old(self), *final(self)),
            final(self).attrs@ == old(self).attrs@,
            final(self).score == 0,
            final(self).hidden_spec(),
            old(self).wf() ==> final(self).wf(),
    {
        self.score = 0;
    }

    /// Rebuild the base markup: the whole-text span, overlaid by the suffix
    /// span when a suffix is present.
    pub fn set_markup(&mut self)
        requires
            old(self).wf(),
        ensures
            same_entry_core(*old(self), *final(self)),
            final(self).score == old(self).score,
            final(self).attrs@ == base_attrs_spec(
                old(self).display_string@.len() as int,
                old(self).extra_range,
            ),
            final(self).wf(),
    {
        self.attrs = Vec::new();
        let dlen = self.display_string.len() as u32;
        add_attrs(&mut self.attrs, AttrLayer::Base, 0, dlen);
        if let Some((lo, hi)) = self.extra_range {
            add_attrs(&mut self.attrs, AttrLayer::Extra, lo, hi);
        }
        assert(self.attrs@ =~= base_attrs_spec(
            self.display_string@.len() as int,
            self.extra_range,
        ));
    }

    /// Re-match the entry against the query: the score becomes 100 for the
    /// empty query, the fuzzy score for a match, 0 (hidden) otherwise, and
    /// the markup is rebuilt from scratch with one highlight per matched
    /// byte of the display text.  Hidden-ness tracks the score exactly.
    pub fn update_match(&mut self, pattern: &[u8])
        requires
            old(self).wf(),
            pattern@.len() <= 0xffff_ffff,
        ensures
            same_entry_core(*old(self), *final(self)),
            final(self).wf(),
            final(self).score == matched_score_spec(old(self).search_string@, pattern@),
            final(self).attrs@ == matched_attrs_spec(
                old(self).display_string@,
                old(self).extra_range,
                old(self).search_string@,
                pattern@,
            ),
            final(self).hidden_spec() <==> matched_score_spec(old(self).search_string@, pattern@)
                == 0,
            pattern@.len() == 0 ==> final(self).score == 100 && !final(self).hidden_spec(),
    {
        self.set_markup();
        let ghost display = self.display_string@;
        let ghost search = self.search_string@;
        let ghost extra = self.extra_range;
        if pattern.len() == 0 {
            self.score = 100;
            assert(self.attrs@ =~= matched_attrs_spec(display, extra, search, pattern@));
            return ;
        }
        match fuzzy_match(self.search_string.as_slice(), pattern) {
            Some((score, indices)) => {
                let ghost sidx = fuzzy_indices_spec(search, pattern@);
                let ghost base = self.attrs@;
                let dlen = self.display_string.len();
                let n = indices.len();
                assert(sidx =~= indices@.map_values(|u: usize| u as int));
                assert(highlight_attrs_spec(sidx.take(0), dlen as int) =~= Seq::<
                    AttrSpan,
                >::empty());
                assert(self.attrs@ =~= base + highlight_attrs_spec(sidx.take(0), dlen as int));
                for k in 0..n
                    invariant
                        n == indices@.len(),
                        n == sidx.len(),
                        dlen == self.display_string@.len(),
                        dlen <= 0xffff_ffff,
                        sidx == indices@.map_values(|u: usize| u as int),
                        forall|m: int| 0 <= m < n ==> sidx[m] == indices@[m],
                        self.attrs@ == base + highlight_attrs_spec(sidx.take(k as int),
                        dlen as int),
                        same_entry_core(*old(self), *self),
                        self.display_string@ == display,
                        self.wf(),
                {
                    let i = indices[k];
                    proof {
                        assert(sidx.take(k + 1).drop_last() =~= sidx.take(k as int));
                        assert(sidx.take(k + 1).last() == sidx[k as int]);
                    }
                    if i < dlen {
                        let iu = i as u32;
                        add_attrs(&mut self.attrs, AttrLayer::Highlight, iu, iu + 1);
                        assert(self.attrs@ =~= base + highlight_attrs_spec(sidx.take(k + 1),
                        dlen as int));
                    } else {
                        assert(self.attrs@ =~= base + highlight_attrs_spec(sidx.take(k + 1),
                        dlen as int));
                    }
                }
                assert(sidx.take(n as int) =~= sidx);
                self.score = score;
                assert(self.attrs@ =~= matched_attrs_spec(display, extra, search, pattern@));
            },
            None => {
                self.score = 0;
                assert(self.attrs@ =~= matched_attrs_spec(display, extra, search, pattern@));
            },
        }
    }

    /// Compare two entries in ranking order: score, usage count and recency
    /// descending, then the collation key ascending.  `Less` ranks first.
    pub fn cmp_rank(&self, other: &Entry) -> (r: Ordering)
        ensures
            r == rank_cmp_spec(self.rank_key(), other.rank_key()),
    {
        if self.score > other.score {
            Ordering::Less
        } else if self.score < other.score {
            Ordering::Greater
        } else if self.history.usage_count > other.history.usage_count {
            Ordering::Less
        } else if self.history.usage_count < other.history.usage_count {
            Ordering::Greater
        } else if self.history.last_used > other.history.last_used {
            Ordering::Less
        } else if self.history.last_used < other.history.last_used {
            Ordering::Greater
        } else {
            string_collate(self.collate_key.as_slice(), other.collate_key.as_slice())
        }
    }

    /// What activating this entry asks the front-end to do, by its content:
    /// spawn the application, run the script, or print the line.
    pub fn act(&self) -> (r: LaunchAction)
        ensures
            match self.content {
                EntryContent::Application(app) => (match r {
                    LaunchAction::RunApp { exec_cmd, terminal, working_dir } => {
                        &&& exec_cmd@ == app.exec_cmd@
                        &&& terminal == app.terminal
                        &&& (match (working_dir, app.path) {
                            (Some(w), Some(p)) => w@ == p@,
                            (None, None) => true,
                            _ => false,
                        })
                    },
                    _ => false,
                }),
                EntryContent::Script(path) => (match r {
                    LaunchAction::RunScript { path: p } => p@ == path@,
                    _ => false,
                }),
                EntryContent::Stdin(text) => (match r {
                    LaunchAction::PrintLine { text: t } => t@ == text@,
                    _ => false,
                }),
            },
    {
        match &self.content {
            EntryContent::Application(app) => LaunchAction::RunApp {
                exec_cmd: bytes_clone(&app.exec_cmd),
                terminal: app.terminal,
                working_dir: match &app.path {
                    Some(p) => Some(bytes_clone(p)),
                    None => None,
                },
            },
            EntryContent::Script(path) => LaunchAction::RunScript { path: bytes_clone(path) },
            EntryContent::Stdin(text) => LaunchAction::PrintLine { text: bytes_clone(text) },
        }
    }
}

// ------------------------------------------------------------------
// Building entries
// ------------------------------------------------------------------

/// The eight bytes of the id suffix `.desktop`.
pub open spec fn desktop_suffix() -> Seq<u8> {
    seq![46u8, 100u8, 101u8, 115u8, 107u8, 116u8, 111u8, 112u8]
}

/// A desktop-file id without its `.desktop` suffix; `None` when the suffix
/// is absent.
pub open spec fn strip_desktop_suffix_spec(id: Seq<u8>) -> Option<Seq<u8>> {
    if id.len() >= 8 && id.subrange(id.len() - 8, id.len() as int) == desktop_suffix() {
        Some(id.take(id.len() - 8))
    } else {
        None
    }
}

/// The second-to-last dot-separated part of an id (for `a.b.c`, the `b`);
/// `None` when the id holds no dot.
pub open spec fn id_suffix_spec(id: Seq<u8>) -> Option<Seq<u8>> {
    match crate::util::rfind_byte(id, 46) {
        None => None,
        Some(j) => {
            let start = match crate::util::rfind_byte(id.take(j), 46) {
                Some(i) => i + 1,
                None => 0,
            };
            Some(id.subrange(start, j))
        },
    }
}

/// The bare executable name of a command line: the first space-separated
/// token, without its directory part.  (Quoting is not unravelled.)
pub open spec fn executable_spec(cmd: Seq<u8>) -> Seq<u8> {
    let token = match crate::util::find_byte(cmd, 32) {
        Some(k) => cmd.take(k),
        None => cmd,
    };
    match crate::util::rfind_byte(token, 47) {
        Some(j) => token.skip(j + 1),
        None => token,
    }
}

/// The value a configurable field takes for an application.
pub open spec fn app_field_spec(app: DesktopEntry, field: Field) -> Option<Seq<u8>> {
    match field {
        Field::Comment => match app.comment {
            Some(c) => Some(c@),
            None => None,
        },
        Field::Id => strip_desktop_suffix_spec(app.id@),
        Field::IdSuffix => id_suffix_spec(app.id@),
        Field::Executable => Some(executable_spec(app.exec_cmd@)),
        Field::Commandline => Some(app.exec_cmd@),
    }
}

/// Read the value a configurable field takes for an application.
pub fn get_app_field(app: &DesktopEntry, field: Field) -> (r: Option<Vec<u8>>)
    ensures
        match (r, app_field_spec(*app, field)) {
            (Some(v), Some(s)) => v@ == s,
            (None, None) => true,
            _ => false,
        },
{
    match field {
        Field::Comment => match &app.comment {
            Some(c) => Some(bytes_clone(c)),
            None => None,
        },
        Field::Id => {
            let n = app.id.len();
            if n >= 8 {
                let tail = crate::util::slice_tail(app.id.as_slice(), n - 8);
                let mut sfx: Vec<u8> = Vec::new();
                sfx.push(46);
                sfx.push(100);
                sfx.push(101);
                sfx.push(115);
                sfx.push(107);
                sfx.push(116);
                sfx.push(111);
                sfx.push(112);
                assert(sfx@ =~= desktop_suffix());
                if crate::util::bytes_eq(tail, sfx.as_slice()) {
                    let mut out: Vec<u8> = Vec::new();
                    let stop = n - 8;
                    for i in 0..stop
                        invariant
                            stop <= app.id@.len(),
                            out@ == app.id@.take(i as int),
                    {
                        out.push(app.id[i]);
                        assert(out@ =~= app.id@.take(i + 1));
                    }
                    return Some(out);
                }
            }
            assert(app_field_spec(*app, field) is None);
            None
        },
        Field::IdSuffix => {
            match crate::util::rfind_byte_in(app.id.as_slice(), 46) {
                None => None,
                Some(j) => {
                    let head = crate::util::slice_head(app.id.as_slice(), j);
                    let start = match crate::util::rfind_byte_in(head, 46) {
                        Some(i) => i + 1,
                        None => 0,
                    };
                    proof {
                        assert(head@ =~= app.id@.take(j as int));
                    }
                    let mut out: Vec<u8> = Vec::new();
                    for i in start..j
                        invariant
                            start <= j < app.id@.len(),
                            out@ == app.id@.subrange(start as int, i as int),
                    {
                        out.push(app.id[i]);
                        assert(out@ =~= app.id@.subrange(start as int, i + 1));
                    }
                    Some(out)
                },
            }
        },
        Field::Executable => {
            let cmd = app.exec_cmd.as_slice();
            let tok_end = match crate::util::find_byte_from(cmd, 32, 0) {
                Some(k) => k,
                None => cmd.len(),
            };
            let token = crate::util::slice_head(cmd, tok_end);
            proof {
                assert(cmd@.skip(0) =~= cmd@);
                assert(token@ =~= (match crate::util::find_byte(app.exec_cmd@, 32) {
                    Some(k) => app.exec_cmd@.take(k),
                    None => app.exec_cmd@,
                }));
            }
            let base_start = match crate::util::rfind_byte_in(token, 47) {
                Some(j) => j + 1,
                None => 0,
            };
            let mut out: Vec<u8> = Vec::new();
            let tn = token.len();
            for i in base_start..tn
                invariant
                    base_start <= tn,
                    tn == token@.len(),
                    out@ == token@.subrange(base_start as int, i as int),
            {
                out.push(token[i]);
                assert(out@ =~= token@.subrange(base_start as int, i + 1));
            }
            proof {
                assert(out@ =~= executable_spec(app.exec_cmd@));
            }
            Some(out)
        },
        Field::Commandline => Some(bytes_clone(&app.exec_cmd)),
    }
}

/// Every field value is no longer than the fields it is cut from.
proof fn lemma_app_field_len(app: DesktopEntry, field: Field)
    requires
        app.wf(),
    ensures
        match app_field_spec(app, field) {
            Some(v) => v.len() <= 0xff_ffff,
            None => true,
        },
{
    match field {
        Field::Comment => {},
        Field::Id => {},
        Field::IdSuffix => {
            crate::util::lemma_rfind_byte_props(app.id@, 46);
            match crate::util::rfind_byte(app.id@, 46) {
                Some(j) => {
                    crate::util::lemma_rfind_byte_props(app.id@.take(j), 46);
                },
                None => {},
            }
        },
        Field::Executable => {
            crate::util::lemma_find_byte_props(app.exec_cmd@, 32);
            let token = match crate::util::find_byte(app.exec_cmd@, 32) {
                Some(k) => app.exec_cmd@.take(k),
                None => app.exec_cmd@,
            };
            crate::util::lemma_rfind_byte_props(token, 47);
        },
        Field::Commandline => {},
    }
}

/// The display-name override stored for `key`, if any.
pub open spec fn override_lookup_spec(m: Seq<(Vec<u8>, Vec<u8>)>, key: Seq<u8>) -> Option<Seq<u8>>
    decreases m.len(),
{
    if m.len() == 0 {
        None
    } else if m[0].0@ == key {
        Some(m[0].1@)
    } else {
        override_lookup_spec(m.skip(1), key)
    }
}

proof fn lemma_override_found(m: Seq<(Vec<u8>, Vec<u8>)>, key: Seq<u8>, i: int)
    requires
        0 <= i < m.len(),
        m[i].0@ == key,
        forall|j: int| 0 <= j < i ==> (#[trigger] m[j]).0@ != key,
    ensures
        override_lookup_spec(m, key) == Some(m[i].1@),
    decreases m.len(),
{
    if i > 0 {
        assert(m.skip(1)[i - 1] == m[i]);
        assert forall|j: int| 0 <= j < i - 1 implies (#[trigger] m.skip(1)[j]).0@ != key by {
            assert(m.skip(1)[j] == m[j + 1]);
        }
        lemma_override_found(m.skip(1), key, i - 1);
    }
}

proof fn lemma_override_absent(m: Seq<(Vec<u8>, Vec<u8>)>, key: Seq<u8>)
    requires
        forall|j: int| 0 <= j < m.len() ==> (#[trigger] m[j]).0@ != key,
    ensures
        override_lookup_spec(m, key) == None::<Seq<u8>>,
    decreases m.len(),
{
    if m.len() > 0 {
        assert forall|j: int| 0 <= j < m.len() - 1 implies (#[trigger] m.skip(1)[j]).0@ != key by {
            assert(m.skip(1)[j] == m[j + 1]);
        }
        lemma_override_absent(m.skip(1), key);
    }
}

/// Look a display-name override up by key.
fn override_lookup(m: &Vec<(Vec<u8>, Vec<u8>)>, key: &[u8]) -> (r: Option<Vec<u8>>)
    ensures
        match (r, override_lookup_spec(m@, key@)) {
            (Some(v), Some(s)) => v@ == s,
            (None, None) => true,
            _ => false,
        },
{
    let n = m.len();
    for i in 0..n
        invariant
            n == m@.len(),
            forall|j: int| 0 <= j < i ==> (#[trigger] m@[j]).0@ != key@,
    {
        if crate::util::bytes_eq(m[i].0.as_slice(), key) {
            proof {
                lemma_override_found(m@, key@, i as int);
            }
            return Some(bytes_clone(&m[i].1));
        }
    }
    proof {
        lemma_override_absent(m@, key@);
    }
    None
}

/// ASCII-lower-cased form of a string, for the redundant-suffix test.
pub open spec fn lower_seq(s: Seq<u8>) -> Seq<u8> {
    s.map_values(|b: u8| crate::fuzzy::fold_spec(b))
}

/// Lower-case a byte string (ASCII letters only).
fn to_lower(s: &[u8]) -> (r: Vec<u8>)
    ensures
        r@ == lower_seq(s@),
{
    let mut out: Vec<u8> = Vec::new();
    let n = s.len();
    for i in 0..n
        invariant
            n == s@.len(),
            out@.len() == i,
            forall|j: int| 0 <= j < i ==> out@[j] == crate::fuzzy::fold_spec(s@[j]),
    {
        out.push(crate::fuzzy::fold_byte(s[i]));
    }
    assert(out@ =~= lower_seq(s@));
    out
}

/// A name override with its suffix marker (carriage return) turned into a
/// space for display.
pub open spec fn replace_cr_spec(s: Seq<u8>) -> Seq<u8> {
    s.map_values(
        |b: u8|
            if b == 13 {
                32u8
            } else {
                b
            },
    )
}

fn replace_cr(s: &[u8]) -> (r: Vec<u8>)
    ensures
        r@ == replace_cr_spec(s@),
{
    let mut out: Vec<u8> = Vec::new();
    let n = s.len();
    for i in 0..n
        invariant
            n == s@.len(),
            out@.len() == i,
            forall|j: int|
                0 <= j < i ==> out@[j] == (if s@[j] == 13 {
                    32u8
                } else {
                    s@[j]
                }),
    {
        let b = s[i];
        out.push(if b == 13 {
            32
        } else {
            b
        });
    }
    assert(out@ =~= replace_cr_spec(s@));
    out
}

/// A script file's stem with word separators (underscore, dash) turned into
/// spaces, ready for title-casing.
pub open spec fn seps_to_space_spec(s: Seq<u8>) -> Seq<u8> {
    s.map_values(
        |b: u8|
            if b == 95 || b == 45 {
                32u8
            } else {
                b
            },
    )
}

fn seps_to_space(s: &[u8]) -> (r: Vec<u8>)
    ensures
        r@ == seps_to_space_spec(s@),
{
    let mut out: Vec<u8> = Vec::new();
    let n = s.len();
    for i in 0..n
        invariant
            n == s@.len(),
            out@.len() == i,
            forall|j: int|
                0 <= j < i ==> out@[j] == (if s@[j] == 95 || s@[j] == 45 {
                    32u8
                } else {
                    s@[j]
                }),
    {
        let b = s[i];
        out.push(
            if b == 95 || b == 45 {
                32
            } else {
                b
            },
        );
    }
    assert(out@ =~= seps_to_space_spec(s@));
    out
}

/// The value a field contributes to the hidden search text: its value, or
/// nothing when the application lacks the field.
pub open spec fn field_or_empty_spec(app: DesktopEntry, field: Field) -> Seq<u8> {
    match app_field_spec(app, field) {
        Some(v) => v,
        None => Seq::empty(),
    }
}

/// The hidden search fields of an application joined with single spaces, in
/// configuration order.
pub open spec fn hidden_join_spec(app: DesktopEntry, fields: Seq<Field>) -> Seq<u8>
    decreases fields.len(),
{
    if fields.len() == 0 {
        Seq::empty()
    } else if fields.len() == 1 {
        field_or_empty_spec(app, fields[0])
    } else {
        hidden_join_spec(app, fields.drop_last()) + seq![32u8] + field_or_empty_spec(
            app,
            fields.last(),
        )
    }
}

proof fn lemma_hidden_join_len(app: DesktopEntry, fields: Seq<Field>)
    requires
        app.wf(),
    ensures
        hidden_join_spec(app, fields).len() <= fields.len() * 0x100_0000,
    decreases fields.len(),
{
    if fields.len() == 0 {
    } else if fields.len() == 1 {
        lemma_app_field_len(app, fields[0]);
    } else {
        lemma_hidden_join_len(app, fields.drop_last());
        lemma_app_field_len(app, fields.last());
    }
}

/// Join the configured hidden fields of an application with spaces.
fn hidden_join(app: &DesktopEntry, fields: &Vec<Field>) -> (r: Vec<u8>)
    requires
        app.wf(),
    ensures
        r@ == hidden_join_spec(*app, fields@),
{
    let mut out: Vec<u8> = Vec::new();
    let n = fields.len();
    for i in 0..n
        invariant
            n == fields@.len(),
            app.wf(),
            out@ == hidden_join_spec(*app, fields@.take(i as int)),
    {
        if i > 0 {
            out.push(32);
        }
        match get_app_field(app, fields[i]) {
            Some(v) => {
                crate::util::push_bytes(&mut out, v.as_slice());
            },
            None => {},
        }
        proof {
            assert(fields@.take(i + 1).drop_last() =~= fields@.take(i as int));
            assert(fields@.take(i + 1).last() == fields@[i as int]);
            if i == 0 {
                assert(out@ =~= hidden_join_spec(*app, fields@.take(i + 1)));
            } else {
                assert(out@ =~= hidden_join_spec(*app, fields@.take(i + 1)));
            }
        }
    }
    assert(fields@.take(n as int) =~= fields@);
    out
}

/// The stem of a file path: the last path component, without its extension
/// (a lone leading dot does not count as one).
pub open spec fn file_stem_spec(p: Seq<u8>) -> Seq<u8> {
    let comp = match crate::util::rfind_byte(p, 47) {
        Some(j) => p.skip(j + 1),
        None => p,
    };
    match crate::util::rfind_byte(comp, 46) {
        Some(j) => if j > 0 {
            comp.take(j)
        } else {
            comp
        },
        None => comp,
    }
}

/// The title-cased form of a byte string, as the `titlecase` crate computes
/// it; a function of the bytes alone.
pub uninterp spec fn title_case_of(s: Seq<u8>) -> Seq<u8>;

/// Relies on titlecase::titlecase: title-case a string.  The result depends
/// on the input characters alone, and an empty input stays empty.
#[verifier::external_body]
fn title_case(s: &Vec<u8>) -> (r: Vec<u8>)
    ensures
        r@ == title_case_of(s@),
        s@.len() == 0 ==> r@.len() == 0,
{
    let text = String::from_utf8_lossy(s).into_owned();
    titlecase::titlecase(&text).into_bytes()
}

impl Entry {
    /// Assemble an entry: adopt the history of its id (zeroed per config),
    /// default the collation key to the display text, and lay the base
    /// markup.
    pub fn new(
        history: &History,
        config: &Config,
        id: Vec<u8>,
        display_string: Vec<u8>,
        search_string: Vec<u8>,
        extra_range: Option<(u32, u32)>,
        init_score: i64,
        content: EntryContent,
    ) -> (r: Entry)
        requires
            display_string@.len() <= 0xffff_ffff,
            search_string@.len() <= 0xffff_ffff,
            (match extra_range {
                Some(rg) => rg.0 <= rg.1 && rg.1 <= display_string@.len(),
                None => true,
            }),
        ensures
            r.wf(),
            r.id@ == id@,
            r.display_string@ == display_string@,
            r.search_string@ == search_string@,
            r.collate_key@ == display_string@,
            r.extra_range == extra_range,
            r.score == init_score,
            r.history == adopted_history_spec(
                lookup_spec(history@, id@),
                config.recent_first,
                config.frequent_first,
            ),
            r.attrs@ == base_attrs_spec(display_string@.len() as int, extra_range),
            r.content == content,
    {
        let found = history.get(id.as_slice());
        let d = match found {
            Some(d) => d,
            None => HistoryData { last_used: 0, usage_count: 0 },
        };
        let adopted = HistoryData {
            last_used: if config.recent_first {
                d.last_used
            } else {
                0
            },
            usage_count: if config.frequent_first {
                d.usage_count
            } else {
                0
            },
        };
        let collate_key = bytes_clone(&display_string);
        let mut e = Entry {
            id,
            display_string,
            search_string,
            collate_key,
            extra_range,
            score: init_score,
            history: adopted,
            attrs: Vec::new(),
            content,
        };
        e.set_markup();
        e
    }

    /// Build the entry of one installed application: apply any display-name
    /// override, else append the configured extra field (unless redundant
    /// and suppressed), and extend the search text with the hidden fields.
    pub fn from_app_info(history: &History, config: &Config, app: DesktopEntry) -> (r: Option<
        Entry,
    >)
        requires
            app.wf(),
            config.wf(),
        ensures
            ({
                let parts = display_parts_spec(
                    app,
                    config.name_overrides@,
                    config.extra_field@,
                    config.hide_extra_if_contained,
                );
                match r {
                    Some(e) => {
                        &&& e.wf()
                        &&& e.id@ == app.id@
                        &&& e.display_string@ == parts.0
                        &&& e.extra_range == parts.1
                        &&& e.search_string@ == search_string_spec(
                            parts.0,
                            app,
                            config.hidden_fields@,
                        )
                        &&& e.collate_key@ == parts.0
                        &&& e.score == 100
                        &&& e.history == adopted_history_spec(
                            lookup_spec(history@, app.id@),
                            config.recent_first,
                            config.frequent_first,
                        )
                        &&& e.attrs@ == base_attrs_spec(parts.0.len() as int, parts.1)
                        &&& (match e.content {
                            EntryContent::Application(a) => a == app,
                            _ => false,
                        })
                    },
                    None => false,
                }
            }),
    {
        let name = bytes_clone(&app.name);
        let okey = get_app_field(&app, Field::Id);
        let over = match &okey {
            Some(k) => override_lookup(&config.name_overrides, k.as_slice()),
            None => None,
        };
        let display: Vec<u8>;
        let extra_range: Option<(u32, u32)>;
        match over {
            Some(ov) => {
                proof {
                    lemma_override_len(config.name_overrides@, strip_desktop_suffix_spec(
                        app.id@,
                    ).unwrap(), *config);
                }
                extra_range = match crate::util::find_byte_from(ov.as_slice(), 13, 0) {
                    Some(i) => Some(((i + 1) as u32, ov.len() as u32)),
                    None => None,
                };
                proof {
                    assert(ov@.skip(0) =~= ov@);
                }
                display = replace_cr(ov.as_slice());
            },
            None => {
                let extra = if config.extra_field.len() > 0 {
                    get_app_field(&app, config.extra_field[0])
                } else {
                    None
                };
                proof {
                    if config.extra_field@.len() > 0 {
                        lemma_app_field_len(app, config.extra_field@[0]);
                    }
                }
                match extra {
                    Some(e) => {
                        let keep = if !config.hide_extra_if_contained {
                            true
                        } else {
                            let ln = to_lower(name.as_slice());
                            let le = to_lower(e.as_slice());
                            !crate::util::contains_bytes(ln.as_slice(), le.as_slice())
                        };
                        if keep {
                            let mut d = bytes_clone(&name);
                            d.push(32);
                            crate::util::push_bytes(&mut d, e.as_slice());
                            assert(d@ =~= app.name@ + seq![32u8] + e@);
                            extra_range = Some(
                                (
                                    (name.len() + 1) as u32,
                                    (name.len() + 1 + e.len()) as u32,
                                ),
                            );
                            display = d;
                        } else {
                            display = name;
                            extra_range = None;
                        }
                    },
                    None => {
                        display = name;
                        extra_range = None;
                    },
                }
            },
        }
        let hj = hidden_join(&app, &config.hidden_fields);
        proof {
            lemma_hidden_join_len(app, config.hidden_fields@);
        }
        let search: Vec<u8> = if hj.len() == 0 {
            bytes_clone(&display)
        } else {
            let mut s = bytes_clone(&display);
            s.push(32);
            crate::util::push_bytes(&mut s, hj.as_slice());
            assert(s@ =~= display@ + seq![32u8] + hj@);
            s
        };
        let id = bytes_clone(&app.id);
        Some(
            Entry::new(
                history,
                config,
                id,
                display,
                search,
                extra_range,
                100,
                EntryContent::Application(app),
            ),
        )
    }

    /// Build the entry of one user script: the display text is the
    /// title-cased file stem with separators as spaces, and the search text
    /// appends the full path.  `None` only when the title-cased stem
    /// overruns the display bound.
    pub fn from_path(history: &History, config: &Config, path: Vec<u8>, init_score: i64) -> (r:
        Option<Entry>)
        requires
            path@.len() <= 0xff_ffff,
        ensures
            ({
                let disp = title_case_of(seps_to_space_spec(file_stem_spec(path@)));
                match r {
                    Some(e) => {
                        &&& disp.len() <= 0xff_ffff
                        &&& e.wf()
                        &&& e.id@ == path@
                        &&& e.display_string@ == disp
                        &&& e.search_string@ == disp + path@
                        &&& e.collate_key@ == disp
                        &&& e.extra_range is None
                        &&& e.score == init_score
                        &&& e.history == adopted_history_spec(
                            lookup_spec(history@, path@),
                            config.recent_first,
                            config.frequent_first,
                        )
                        &&& e.attrs@ == base_attrs_spec(disp.len() as int, None)
                        &&& (match e.content {
                            EntryContent::Script(p) => p@ == path@,
                            _ => false,
                        })
                    },
                    None => disp.len() > 0xff_ffff,
                }
            }),
    {
        let comp = match crate::util::rfind_byte_in(path.as_slice(), 47) {
            Some(j) => crate::util::slice_tail(path.as_slice(), j + 1),
            None => path.as_slice(),
        };
        let stem = match crate::util::rfind_byte_in(comp, 46) {
            Some(j) => if j > 0 {
                crate::util::slice_head(comp, j)
            } else {
                comp
            },
            None => comp,
        };
        assert(stem@ == file_stem_spec(path@));
        let replaced = seps_to_space(stem);
        let display = title_case(&replaced);
        if display.len() > 0xff_ffff {
            return None;
        }
        let mut search = bytes_clone(&display);
        crate::util::push_bytes(&mut search, path.as_slice());
        let id = bytes_clone(&path);
        Some(
            Entry::new(
                history,
                config,
                id,
                display,
                search,
                None,
                init_score,
                EntryContent::Script(path),
            ),
        )
    }

    /// Build the entry of one line read from standard input: the line is its
    /// own id, display text and search text.
    pub fn from_string(history: &History, config: &Config, s: Vec<u8>) -> (r: Entry)
        requires
            s@.len() <= 0xffff_ffff,
        ensures
            r.wf(),
            r.id@ == s@,
            r.display_string@ == s@,
            r.search_string@ == s@,
            r.collate_key@ == s@,
            r.extra_range is None,
            r.score == 100,
            r.history == adopted_history_spec(
                lookup_spec(history@, s@),
                config.recent_first,
                config.frequent_first,
            ),
            r.attrs@ == base_attrs_spec(s@.len() as int, None),
            (match r.content {
                EntryContent::Stdin(t) => t@ == s@,
                _ => false,
            }),
    {
        let id = bytes_clone(&s);
        let display = bytes_clone(&s);
        let search = bytes_clone(&s);
        Entry::new(history, config, id, display, search, None, 100, EntryContent::Stdin(s))
    }
}

/// The display text and suffix range of an application entry: the stored
/// override with its marker replaced, or the name with the configured extra
/// field appended (suppressed when contained in the name and so configured).
pub open spec fn display_parts_spec(
    app: DesktopEntry,
    overrides: Seq<(Vec<u8>, Vec<u8>)>,
    extra_field: Seq<Field>,
    hide_extra_if_contained: bool,
) -> (Seq<u8>, Option<(u32, u32)>) {
    let over = match strip_desktop_suffix_spec(app.id@) {
        Some(k) => override_lookup_spec(overrides, k),
        None => None,
    };
    match over {
        Some(ov) => (
            replace_cr_spec(ov),
            match crate::util::find_byte(ov, 13) {
                Some(i) => Some(((i + 1) as u32, ov.len() as u32)),
                None => None,
            },
        ),
        None => {
            let extra = if extra_field.len() > 0 {
                app_field_spec(app, extra_field[0])
            } else {
                None
            };
            match extra {
                Some(e) => if !hide_extra_if_contained || !crate::util::contains_subseq(
                    lower_seq(app.name@),
                    lower_seq(e),
                ) {
                    (
                        app.name@ + seq![32u8] + e,
                        Some(((app.name@.len() + 1) as u32, (app.name@.len() + 1 + e.len()) as u32)),
                    )
                } else {
                    (app.name@, None)
                },
                None => (app.name@, None),
            }
        },
    }
}

/// The search text: the display text, extended with the joined hidden
/// fields when any are non-empty.
pub open spec fn search_string_spec(
    display: Seq<u8>,
    app: DesktopEntry,
    hidden_fields: Seq<Field>,
) -> Seq<u8> {
    let hj = hidden_join_spec(app, hidden_fields);
    if hj.len() == 0 {
        display
    } else {
        display + seq![32u8] + hj
    }
}

/// A stored override value obeys the configured length bound.
proof fn lemma_override_len(m: Seq<(Vec<u8>, Vec<u8>)>, key: Seq<u8>, config: Config)
    requires
        m == config.name_overrides@,
        config.wf(),
    ensures
        match override_lookup_spec(m, key) {
            Some(v) => v.len() <= 0xff_ffff,
            None => true,
        },
{
    assert(m =~= config.name_overrides@.skip(0));
    lemma_override_len_rec(m, key, config.name_overrides@);
}

proof fn lemma_override_len_rec(m: Seq<(Vec<u8>, Vec<u8>)>, key: Seq<u8>, whole: Seq<
    (Vec<u8>, Vec<u8>)>)
    requires
        forall|i: int| 0 <= i < whole.len() ==> (#[trigger] whole[i]).1@.len() <= 0xff_ffff,
        exists|k: int|
            0 <= k <= whole.len() && m == #[trigger] whole.skip(k),
    ensures
        match override_lookup_spec(m, key) {
            Some(v) => v.len() <= 0xff_ffff,
            None => true,
        },
    decreases m.len(),
{
    if m.len() > 0 {
        let k = choose|k: int| 0 <= k <= whole.len() && m == #[trigger] whole.skip(k);
        assert(m[0] == whole[k]);
        assert(whole.skip(k).skip(1) =~= whole.skip(k + 1));
        assert(m.skip(1) == whole.skip(k + 1));
        lemma_override_len_rec(m.skip(1), key, whole);
    }
}

/// Whether a regular expression matches anywhere in a text, as the `regex`
/// crate decides it; `None` when the pattern is invalid.  A function of the
/// two byte strings alone.
pub uninterp spec fn regex_match_of(pattern: Seq<u8>, text: Seq<u8>) -> Option<bool>;

/// Relies on regex::Regex: compile the pattern and test whether it matches
/// anywhere in the text.  `None` when the pattern is not valid (or either
/// side is not UTF-8).
#[verifier::external_body]
fn regex_match(pattern: &[u8], text: &[u8]) -> (r: Option<bool>)
    ensures
        r == regex_match_of(pattern@, text@),
{
    let p = match core::str::from_utf8(pattern) {
        Ok(p) => p,
        Err(_) => return None,
    };
    let t = match core::str::from_utf8(text) {
        Ok(t) => t,
        Err(_) => return None,
    };
    match regex::Regex::new(p) {
        Ok(re) => Some(re.is_match(t)),
        Err(_) => None,
    }
}

/// Test an application id against the configured exclusion patterns:
/// `Some(true)` when some pattern matches (the entry is skipped),
/// `Some(false)` when none does, and `None` when a pattern is invalid, which
/// is a fatal configuration error.
pub fn is_excluded(patterns: &Vec<Vec<u8>>, id: &[u8]) -> (r: Option<bool>)
    ensures
        match r {
            None => exists|k: int|
                0 <= k < patterns@.len() && regex_match_of((#[trigger] patterns@[k])@, id@)
                    is None,
            Some(b) => {
                &&& forall|k: int|
                    0 <= k < patterns@.len() ==> regex_match_of((#[trigger] patterns@[k])@, id@)
                        is Some
                &&& b == exists|k: int|
                    0 <= k < patterns@.len() && regex_match_of((#[trigger] patterns@[k])@, id@)
                        == Some(true)
            },
        },
{
    let n = patterns.len();
    let mut found = false;
    for k in 0..n
        invariant
            n == patterns@.len(),
            forall|j: int|
                0 <= j < k ==> regex_match_of((#[trigger] patterns@[j])@, id@) is Some,
            found == exists|j: int|
                0 <= j < k && regex_match_of((#[trigger] patterns@[j])@, id@) == Some(true),
    {
        match regex_match(patterns[k].as_slice(), id) {
            Some(true) => {
                found = true;
            },
            Some(false) => {},
            None => {
                return None;
            },
        }
    }
    Some(found)
}

/// Append one styled span to a markup list.
pub fn add_attrs(list: &mut Vec<AttrSpan>, layer: AttrLayer, start: u32, end: u32)
    ensures
        final(list)@ == old(list)@.push((AttrSpan { layer: layer, start: start, end: end })),
{
    list.push(AttrSpan { layer: layer, start: start, end: end });
}

} // verus!

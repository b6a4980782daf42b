//! The filter/sort controller: what one query-text change does to every
//! entry, how the visible rows are ordered, and what submitting the query
//! activates.

use vstd::prelude::*;

use crate::config::Config;
use crate::entry::{matched_attrs_spec, matched_score_spec, same_entry_core, Entry};
use crate::rank::{lemma_rank_cmp_flip, lemma_rank_trans, rank_cmp_spec, rank_le};
use crate::util::{is_cmd, slice_tail, starts_with, trim_bytes, trim_spec};

verus! {

use core::cmp::Ordering;

/// One entry after matching a query: its score and markup are those of the
/// match, everything else is untouched.
pub open spec fn entry_matched(a: Entry, b: Entry, q: Seq<u8>) -> bool {
    &&& same_entry_core(a, b)
    &&& b.score == matched_score_spec(a.search_string@, q)
    &&& b.attrs@ == matched_attrs_spec(a.display_string@, a.extra_range, a.search_string@, q)
}

/// One entry after being forced hidden: score 0, everything else untouched.
pub open spec fn entry_hidden_rel(a: Entry, b: Entry) -> bool {
    &&& same_entry_core(a, b)
    &&& b.attrs@ == a.attrs@
    &&& b.score == 0
}

/// Matching is idempotent: an entry already matched against a query is left
/// exactly as it is by matching it against the same query again — scores
/// and markup never accumulate.
pub proof fn lemma_update_match_idempotent(a: Entry, b: Entry, c: Entry, q: Seq<u8>)
    requires
        entry_matched(a, b, q),
        entry_matched(b, c, q),
    ensures
        c.score == b.score,
        c.attrs@ == b.attrs@,
{
}

/// What one query-text change does to one entry, by the three query forms:
/// a command-prefixed query hides everything; a script-prefixed query (in
/// application mode) hides applications and matches the rest against the
/// stripped, trimmed remainder; otherwise applications are matched against
/// the full text and, in application mode, scripts are hidden.
pub open spec fn searched_rel(
    a: Entry,
    b: Entry,
    text: Seq<u8>,
    command_prefix: Seq<u8>,
    script_prefix: Seq<u8>,
    handle_scripts: bool,
) -> bool {
    if command_prefix.len() > 0 && command_prefix.is_prefix_of(text) {
        entry_hidden_rel(a, b)
    } else if handle_scripts && script_prefix.len() > 0 && script_prefix.is_prefix_of(text) {
        if a.content.is_application_spec() {
            entry_hidden_rel(a, b)
        } else {
            entry_matched(a, b, trim_spec(text.skip(script_prefix.len() as int)))
        }
    } else if handle_scripts && !a.content.is_application_spec() {
        entry_hidden_rel(a, b)
    } else {
        entry_matched(a, b, text)
    }
}

/// Apply one query-text change to every entry, per `searched_rel`.
pub fn apply_search(entries: &mut Vec<Entry>, text: &[u8], config: &Config, handle_scripts: bool)
    requires
        forall|i: int| 0 <= i < old(entries)@.len() ==> (#[trigger] old(entries)@[i]).wf(),
        text@.len() <= 0xffff_ffff,
    ensures
        final(entries)@.len() == old(entries)@.len(),
        forall|i: int|
            0 <= i < final(entries)@.len() ==> searched_rel(
                old(entries)@[i],
                #[trigger] final(entries)@[i],
                text@,
                config.command_prefix@,
                config.script_prefix@,
                handle_scripts,
            ),
        forall|i: int| 0 <= i < final(entries)@.len() ==> (#[trigger] final(entries)@[i]).wf(),
{
    let is_command = is_cmd(text, config.command_prefix.as_slice());
    let is_script_query = handle_scripts && config.script_prefix.len() > 0 && starts_with(
        text,
        config.script_prefix.as_slice(),
    );
    let stripped: Vec<u8> = if is_script_query {
        let rest = slice_tail(text, config.script_prefix.len());
        let t = trim_bytes(rest);
        proof {
            crate::util::lemma_trim_len(text@.skip(config.script_prefix@.len() as int));
        }
        t
    } else {
        Vec::new()
    };
    let n = entries.len();
    for i in 0..n
        invariant
            n == entries@.len(),
            n == old(entries)@.len(),
            text@.len() <= 0xffff_ffff,
            is_command == (config.command_prefix@.len() > 0
                && config.command_prefix@.is_prefix_of(text@)),
            is_script_query == (handle_scripts && config.script_prefix@.len() > 0
                && config.script_prefix@.is_prefix_of(text@)),
            is_script_query ==> stripped@ == trim_spec(
                text@.skip(config.script_prefix@.len() as int),
            ),
            stripped@.len() <= 0xffff_ffff,
            forall|j: int| i <= j < n ==> #[trigger] entries@[j] == old(entries)@[j],
            forall|j: int| 0 <= j < n ==> (#[trigger] entries@[j]).wf(),
            forall|j: int|
                0 <= j < i ==> searched_rel(
                    old(entries)@[j],
                    #[trigger] entries@[j],
                    text@,
                    config.command_prefix@,
                    config.script_prefix@,
                    handle_scripts,
                ),
    {
        let e = &mut entries[i];
        if is_command {
            e.force_hide();
        } else if is_script_query {
            if e.is_application() {
                e.force_hide();
            } else {
                e.update_match(stripped.as_slice());
            }
        } else if handle_scripts {
            if e.is_application() {
                e.update_match(text);
            } else {
                e.force_hide();
            }
        } else {
            e.update_match(text);
        }
    }
}

/// The indices of the visible entries, in ranking order: every visible
/// entry appears exactly once, no hidden entry appears, and earlier indices
/// rank no later than later ones.
pub fn sort_visible(entries: &Vec<Entry>) -> (r: Vec<usize>)
    ensures
        forall|k: int|
            0 <= k < r@.len() ==> (#[trigger] r@[k]) < entries@.len()
                && !entries@[r@[k] as int].hidden_spec(),
        forall|i: int|
            0 <= i < entries@.len() && !(#[trigger] entries@[i]).hidden_spec() ==> exists|k: int|
                0 <= k < r@.len() && #[trigger] r@[k] == i,
        forall|k1: int, k2: int| 0 <= k1 < k2 < r@.len() ==> r@[k1] != r@[k2],
        forall|k1: int, k2: int|
            0 <= k1 < k2 < r@.len() ==> rank_le(
                entries@[#[trigger] r@[k1] as int].rank_key(),
                entries@[#[trigger] r@[k2] as int].rank_key(),
            ),
{
    let mut order: Vec<usize> = Vec::new();
    let n = entries.len();
    for i in 0..n
        invariant
            n == entries@.len(),
            forall|k: int|
                0 <= k < order@.len() ==> (#[trigger] order@[k]) < i
                    && !entries@[order@[k] as int].hidden_spec(),
            forall|j: int|
                0 <= j < i && !(#[trigger] entries@[j]).hidden_spec() ==> exists|k: int|
                    0 <= k < order@.len() && #[trigger] order@[k] == j,
            forall|k1: int, k2: int| 0 <= k1 < k2 < order@.len() ==> order@[k1] != order@[k2],
            forall|k1: int, k2: int|
                0 <= k1 < k2 < order@.len() ==> rank_le(
                    entries@[#[trigger] order@[k1] as int].rank_key(),
                    entries@[#[trigger] order@[k2] as int].rank_key(),
                ),
    {
        if !entries[i].hidden() {
            let key = i;
            let mut p: usize = 0;
            loop
                invariant_except_break
                    n == entries@.len(),
                    i < n,
                    p <= order@.len(),
                    forall|k: int| 0 <= k < order@.len() ==> (#[trigger] order@[k]) < n,
                    forall|j: int|
                        0 <= j < p ==> rank_cmp_spec(
                            entries@[#[trigger] order@[j] as int].rank_key(),
                            entries@[i as int].rank_key(),
                        ) != Ordering::Greater,
                ensures
                    n == entries@.len(),
                    i < n,
                    p <= order@.len(),
                    forall|k: int| 0 <= k < order@.len() ==> (#[trigger] order@[k]) < n,
                    forall|j: int|
                        0 <= j < p ==> rank_cmp_spec(
                            entries@[#[trigger] order@[j] as int].rank_key(),
                            entries@[i as int].rank_key(),
                        ) != Ordering::Greater,
                    p < order@.len() ==> rank_cmp_spec(
                        entries@[order@[p as int] as int].rank_key(),
                        entries@[i as int].rank_key(),
                    ) == Ordering::Greater,
                decreases order@.len() - p,
            {
                if p >= order.len() {
                    break ;
                }
                let c = entries[order[p]].cmp_rank(&entries[i]);
                if matches!(c, Ordering::Greater) {
                    break ;
                }
                p = p + 1;
            }
            proof {
                if p < order@.len() {
                    lemma_rank_cmp_flip(
                        entries@[order@[p as int] as int].rank_key(),
                        entries@[i as int].rank_key(),
                    );
                }
            }
            let ghost pre = order@;
            order.insert(p, key);
            proof {
                let post = order@;
                assert(post == pre.insert(p as int, i as usize));
                assert forall|k: int|
                    0 <= k < post.len() implies (#[trigger] post[k]) < i + 1
                    && !entries@[post[k] as int].hidden_spec() by {
                    if k < p {
                        assert(post[k] == pre[k]);
                    } else if k == p {
                        assert(post[k] == i);
                    } else {
                        assert(post[k] == pre[k - 1]);
                    }
                }
                assert forall|j: int|
                    0 <= j < i + 1 && !(#[trigger] entries@[j]).hidden_spec() implies exists|k: int|
                    0 <= k < post.len() && #[trigger] post[k] == j by {
                    if j == i {
                        assert(post[p as int] == i);
                    } else {
                        let k0 = choose|k0: int| 0 <= k0 < pre.len() && #[trigger] pre[k0] == j;
                        if k0 < p {
                            assert(post[k0] == j);
                        } else {
                            assert(post[k0 + 1] == j);
                        }
                    }
                }
                assert forall|k1: int, k2: int|
                    0 <= k1 < k2 < post.len() implies post[k1] != post[k2] by {
                    let a1 = if k1 < p {
                        k1
                    } else {
                        k1 - 1
                    };
                    let a2 = if k2 < p {
                        k2
                    } else {
                        k2 - 1
                    };
                    if k1 == p {
                        assert(post[k1] == i && post[k2] == pre[a2] && pre[a2] < i);
                    } else if k2 == p {
                        assert(post[k2] == i && post[k1] == pre[a1] && pre[a1] < i);
                    } else {
                        assert(post[k1] == pre[a1] && post[k2] == pre[a2]);
                    }
                }
                assert forall|k1: int, k2: int|
                    0 <= k1 < k2 < post.len() implies rank_le(
                    entries@[#[trigger] post[k1] as int].rank_key(),
                    entries@[#[trigger] post[k2] as int].rank_key(),
                ) by {
                    let xi = entries@[i as int].rank_key();
                    let a1 = if k1 < p {
                        k1
                    } else {
                        k1 - 1
                    };
                    let a2 = if k2 < p {
                        k2
                    } else {
                        k2 - 1
                    };
                    if k1 == p {
                        // the new element against a later one
                        let y = entries@[pre[a2] as int].rank_key();
                        assert(post[k2] == pre[a2]);
                        if a2 == p {
                            assert(rank_cmp_spec(y, xi) == Ordering::Greater);
                            lemma_rank_cmp_flip(y, xi);
                        } else {
                            let yp = entries@[pre[p as int] as int].rank_key();
                            assert(rank_cmp_spec(yp, xi) == Ordering::Greater);
                            lemma_rank_cmp_flip(yp, xi);
                            assert(rank_le(yp, y));
                            lemma_rank_trans(xi, yp, y);
                        }
                    } else if k2 == p {
                        // an earlier element against the new one
                        let y = entries@[pre[a1] as int].rank_key();
                        assert(post[k1] == pre[a1]);
                        assert(rank_cmp_spec(y, xi) != Ordering::Greater);
                    } else {
                        assert(post[k1] == pre[a1] && post[k2] == pre[a2]);
                        assert(rank_le(
                            entries@[pre[a1] as int].rank_key(),
                            entries@[pre[a2] as int].rank_key(),
                        ));
                    }
                }
            }
        } else {
            proof {
                assert forall|j: int|
                    0 <= j < i + 1 && !(#[trigger] entries@[j]).hidden_spec() implies exists|k: int|
                    0 <= k < order@.len() && #[trigger] order@[k] == j by {
                    assert(j != i);
                }
            }
        }
    }
    order
}

/// What submitting the query text does.
pub enum SubmitOutcome {
    /// Run the rest of the text, after the command prefix, as a literal
    /// command line.
    RunCommand(Vec<u8>),
    /// Activate the entry at this index of the entry list.
    Activate(usize),
    /// Nothing to do: no command prefix and no visible entry.
    NoSelection,
}

/// Decide what submitting the query activates: with the command prefix, the
/// trimmed remainder is run as a literal command line, bypassing the list;
/// otherwise the top-ranked visible entry, if any, is activated.
pub fn on_submit(text: &[u8], config: &Config, order: &Vec<usize>) -> (r: SubmitOutcome)
    ensures
        (match r {
            SubmitOutcome::RunCommand(cmd) => {
                &&& config.command_prefix@.len() > 0
                &&& config.command_prefix@.is_prefix_of(text@)
                &&& cmd@ == trim_spec(text@.skip(config.command_prefix@.len() as int))
            },
            SubmitOutcome::Activate(i) => {
                &&& !(config.command_prefix@.len() > 0 && config.command_prefix@.is_prefix_of(
                    text@,
                ))
                &&& order@.len() > 0
                &&& i == order@[0]
            },
            SubmitOutcome::NoSelection => {
                &&& !(config.command_prefix@.len() > 0 && config.command_prefix@.is_prefix_of(
                    text@,
                ))
                &&& order@.len() == 0
            },
        }),
{
    if is_cmd(text, config.command_prefix.as_slice()) {
        let rest = slice_tail(text, config.command_prefix.len());
        SubmitOutcome::RunCommand(trim_bytes(rest))
    } else if order.len() > 0 {
        SubmitOutcome::Activate(order[0])
    } else {
        SubmitOutcome::NoSelection
    }
}

} // verus!

//! The usage-history store: per-entry launch count and last-used time,
//! persisted as plain text.
//!
//! The on-disk format is one record per line, `usage_count SP last_used SP
//! id NL`, with both numbers in decimal.  Parsing the whole file back yields
//! exactly the saved records; a malformed file or duplicate ids degrade to an
//! empty history, and loading can prune records older than a configured
//! number of days.

use vstd::prelude::*;

use crate::util::{
    bytes_eq, find_byte, find_byte_from, lemma_find_byte_at, lemma_find_byte_none,
    lemma_find_byte_props, push_bytes,
};

verus! {

use vstd::arithmetic::div_mod::lemma_fundamental_div_mod;
use vstd::slice::{slice_subrange, slice_to_vec};

/// Usage statistics of one entry: when it was last launched (epoch seconds)
/// and how many times it has been launched.
#[derive(Clone, Copy, Debug, PartialEq, Eq, Structural)]
pub struct HistoryData {
    pub last_used: u64,
    pub usage_count: u32,
}

impl Default for HistoryData {
    /// An entry never launched: both statistics are zero.
    fn default() -> (r: Self)
        ensures
            r.last_used == 0,
            r.usage_count == 0,
    {
        HistoryData { last_used: 0, usage_count: 0 }
    }
}

// ------------------------------------------------------------------
// Decimal numbers
// ------------------------------------------------------------------

/// ASCII decimal digit.
pub open spec fn is_digit(b: u8) -> bool {
    48 <= b && b <= 57
}

/// Every byte of `s` is a decimal digit.
pub open spec fn all_digits(s: Seq<u8>) -> bool {
    forall|i: int| 0 <= i < s.len() ==> is_digit(#[trigger] s[i])
}

/// Numeric value of a digit string, most significant digit first.
pub open spec fn digits_val(s: Seq<u8>) -> int
    decreases s.len(),
{
    if s.len() == 0 {
        0
    } else {
        digits_val(s.drop_last()) * 10 + (s.last() - 48)
    }
}

/// The canonical decimal rendering of `n >= 0`: no sign, no leading zeros.
pub open spec fn dec_digits(n: int) -> Seq<u8>
    decreases n
        when n >= 0
{
    if n < 10 {
        seq![(48 + n) as u8]
    } else {
        dec_digits(n / 10).push((48 + n % 10) as u8)
    }
}

/// A digit string is accepted for a field with upper bound `limit` when it
/// is non-empty, all digits, and its value is within the bound.
pub open spec fn dec_seg_valid(s: Seq<u8>, limit: int) -> bool {
    s.len() >= 1 && all_digits(s) && digits_val(s) <= limit
}

proof fn lemma_digits_val_nonneg(s: Seq<u8>)
    requires
        all_digits(s),
    ensures
        digits_val(s) >= 0,
    decreases s.len(),
{
    if s.len() > 0 {
        lemma_digits_val_nonneg(s.drop_last());
    }
}

/// Extending a digit string to the right can only increase its value.
proof fn lemma_digits_val_prefix_le(s: Seq<u8>, i: int)
    requires
        all_digits(s),
        0 <= i <= s.len(),
    ensures
        digits_val(s.take(i)) <= digits_val(s),
    decreases s.len() - i,
{
    if i == s.len() {
        assert(s.take(i) =~= s);
    } else {
        assert(s.take(i + 1).drop_last() =~= s.take(i));
        assert(s.take(i + 1).last() == s[i]);
        assert(all_digits(s.take(i))) by {
            assert(forall|j: int| 0 <= j < i ==> s.take(i)[j] == s[j]);
        }
        lemma_digits_val_nonneg(s.take(i));
        lemma_digits_val_prefix_le(s, i + 1);
    }
}

/// The canonical rendering evaluates back to the number it came from.
proof fn lemma_dec_digits_correct(n: int)
    requires
        n >= 0,
    ensures
        all_digits(dec_digits(n)),
        digits_val(dec_digits(n)) == n,
        dec_digits(n).len() >= 1,
    decreases n,
{
    if n < 10 {
        let s = dec_digits(n);
        assert(s == seq![(48 + n) as u8]);
        assert(s.drop_last() =~= Seq::<u8>::empty());
        assert(digits_val(Seq::<u8>::empty()) == 0);
        assert(s.last() == (48 + n) as u8);
        assert(digits_val(s) == digits_val(s.drop_last()) * 10 + (s.last() - 48));
        assert(digits_val(s) == n);
    } else {
        lemma_dec_digits_correct(n / 10);
        lemma_fundamental_div_mod(n, 10);
        assert(0 <= n % 10 < 10);
        let s = dec_digits(n);
        assert(s == dec_digits(n / 10).push((48 + n % 10) as u8));
        assert(s.drop_last() =~= dec_digits(n / 10));
        assert(s.last() == (48 + n % 10) as u8);
        assert(digits_val(s) == digits_val(s.drop_last()) * 10 + (s.last() - 48));
        assert(digits_val(s) == (n / 10) * 10 + n % 10);
    }
}

/// Parse a full slice as a decimal number no larger than `limit`.
fn parse_dec(s: &[u8], limit: u64) -> (r: Option<u64>)
    ensures
        r is Some <==> dec_seg_valid(s@, limit as int),
        match r {
            Some(v) => v as int == digits_val(s@) && v <= limit,
            None => true,
        },
{
    if s.len() == 0 {
        return None;
    }
    let mut val: u128 = 0;
    let n = s.len();
    for i in 0..n
        invariant
            n == s@.len(),
            all_digits(s@.take(i as int)),
            val as int == digits_val(s@.take(i as int)),
            val <= limit as u128,
        {
        let b = s[i];
        if b < 48 || b > 57 {
            assert(!is_digit(s@[i as int]));
            assert(!all_digits(s@));
            return None;
        }
        assert(s@.take(i + 1).drop_last() =~= s@.take(i as int));
        assert(s@.take(i + 1).last() == s@[i as int]);
        assert(all_digits(s@.take(i + 1))) by {
            assert forall|j: int| 0 <= j < i + 1 implies is_digit(#[trigger] s@.take(i + 1)[j]) by {
                if j < i {
                    assert(s@.take(i as int)[j] == s@[j]);
                }
            }
        }
        let nv: u128 = val * 10 + (b - 48) as u128;
        assert(nv as int == digits_val(s@.take(i + 1)));
        if nv > limit as u128 {
            proof {
                if all_digits(s@) {
                    lemma_digits_val_prefix_le(s@, i + 1);
                }
            }
            return None;
        }
        val = nv;
    }
    assert(s@.take(n as int) =~= s@);
    Some(val as u64)
}

// ------------------------------------------------------------------
// The in-memory mapping
// ------------------------------------------------------------------

/// An id may hold any byte but a newline, which delimits records on disk.
pub open spec fn id_ok(id: Seq<u8>) -> bool {
    forall|i: int| 0 <= i < id.len() ==> #[trigger] id[i] != 10
}

/// Every record's id is newline-free.
pub open spec fn ids_ok(m: Seq<(Seq<u8>, HistoryData)>) -> bool {
    forall|i: int| 0 <= i < m.len() ==> id_ok((#[trigger] m[i]).0)
}

/// No two records share an id.
pub open spec fn ids_unique(m: Seq<(Seq<u8>, HistoryData)>) -> bool {
    forall|i: int, j: int| 0 <= i < j < m.len() ==> (#[trigger] m[i]).0 != (#[trigger] m[j]).0
}

/// Some record carries this id.
pub open spec fn contains_id(m: Seq<(Seq<u8>, HistoryData)>, id: Seq<u8>) -> bool {
    exists|i: int| 0 <= i < m.len() && (#[trigger] m[i]).0 == id
}

/// The statistics stored for `id`, if any (first record wins).
pub open spec fn lookup_spec(m: Seq<(Seq<u8>, HistoryData)>, id: Seq<u8>) -> Option<HistoryData>
    decreases m.len(),
{
    if m.len() == 0 {
        None
    } else if m[0].0 == id {
        Some(m[0].1)
    } else {
        lookup_spec(m.skip(1), id)
    }
}

proof fn lemma_lookup_found(m: Seq<(Seq<u8>, HistoryData)>, id: Seq<u8>, i: int)
    requires
        0 <= i < m.len(),
        m[i].0 == id,
        forall|j: int| 0 <= j < i ==> (#[trigger] m[j]).0 != id,
    ensures
        lookup_spec(m, id) == Some(m[i].1),
    decreases m.len(),
{
    if i > 0 {
        assert(m.skip(1)[i - 1] == m[i]);
        assert forall|j: int| 0 <= j < i - 1 implies (#[trigger] m.skip(1)[j]).0 != id by {
            assert(m.skip(1)[j] == m[j + 1]);
        }
        lemma_lookup_found(m.skip(1), id, i - 1);
    }
}

proof fn lemma_lookup_absent(m: Seq<(Seq<u8>, HistoryData)>, id: Seq<u8>)
    requires
        forall|j: int| 0 <= j < m.len() ==> (#[trigger] m[j]).0 != id,
    ensures
        lookup_spec(m, id) == None::<HistoryData>,
    decreases m.len(),
{
    if m.len() > 0 {
        assert forall|j: int| 0 <= j < m.len() - 1 implies (#[trigger] m.skip(1)[j]).0 != id by {
            assert(m.skip(1)[j] == m[j + 1]);
        }
        lemma_lookup_absent(m.skip(1), id);
    }
}

/// The statistics after one more launch at time `now`: the launch is counted
/// (saturating at the counter's maximum) and the time recorded.
pub open spec fn bump_spec(d: HistoryData, now: u64) -> HistoryData {
    HistoryData {
        last_used: now,
        usage_count: if d.usage_count < u32::MAX {
            (d.usage_count + 1) as u32
        } else {
            d.usage_count
        },
    }
}

/// The mapping after recording a launch of `id` at time `now`: the record of
/// `id` is bumped in place, or a fresh record with one use is appended.
pub open spec fn update_spec(m: Seq<(Seq<u8>, HistoryData)>, id: Seq<u8>, now: u64) -> Seq<
    (Seq<u8>, HistoryData),
> {
    if contains_id(m, id) {
        m.map_values(
            |p: (Seq<u8>, HistoryData)|
                if p.0 == id {
                    (p.0, bump_spec(p.1, now))
                } else {
                    p
                },
        )
    } else {
        m.push((id, HistoryData { last_used: now, usage_count: 1 }))
    }
}

/// The usage-history mapping: a list of records with pairwise distinct,
/// newline-free ids.
pub struct History {
    records: Vec<(Vec<u8>, HistoryData)>,
}

/// The mathematical content of a record list.
pub open spec fn recs_model(v: Seq<(Vec<u8>, HistoryData)>) -> Seq<(Seq<u8>, HistoryData)> {
    v.map_values(|p: (Vec<u8>, HistoryData)| (p.0@, p.1))
}

impl View for History {
    type V = Seq<(Seq<u8>, HistoryData)>;

    closed spec fn view(&self) -> Seq<(Seq<u8>, HistoryData)> {
        recs_model(self.records@)
    }
}

impl History {
    /// Well-formed: distinct ids, none holding a newline.
    pub open spec fn wf(&self) -> bool {
        ids_unique(self@) && ids_ok(self@)
    }

    /// The empty history of a cold start.
    pub fn new() -> (r: History)
        ensures
            r@ == Seq::<(Seq<u8>, HistoryData)>::empty(),
            r.wf(),
    {
        let r = History { records: Vec::new() };
        assert(r@ =~= Seq::<(Seq<u8>, HistoryData)>::empty());
        r
    }

    /// How many records the history holds.
    pub fn len(&self) -> (r: usize)
        ensures
            r == self@.len(),
    {
        self.records.len()
    }

    /// The statistics stored for `id`, if any.
    pub fn get(&self, id: &[u8]) -> (r: Option<HistoryData>)
        ensures
            r == lookup_spec(self@, id@),
    {
        let n = self.records.len();
        for i in 0..n
            invariant
                n == self@.len(),
                forall|j: int| 0 <= j < i ==> (#[trigger] self@[j]).0 != id@,
        {
            if bytes_eq(self.records[i].0.as_slice(), id) {
                proof {
                    lemma_lookup_found(self@, id@, i as int);
                }
                return Some(self.records[i].1);
            }
        }
        proof {
            lemma_lookup_absent(self@, id@);
        }
        None
    }
}

/// Record a launch of `id` at time `now` in the in-memory mapping: its usage
/// count grows by one (a fresh record starts at one) and its last-used time
/// becomes `now`.  Persisting is a separate step.
pub fn update_history(history: &mut History, id: &[u8], now: u64)
    requires
        old(history).wf(),
        id_ok(id@),
    ensures
        final(history).wf(),
        final(history)@ == update_spec(old(history)@, id@, now),
{
    let ghost m = history@;
    let n = history.records.len();
    let mut i: usize = 0;
    while i < n
        invariant
            n == history@.len(),
            history@ == m,
            m == old(history)@,
            id_ok(id@),
            history.wf(),
            0 <= i <= n,
            forall|j: int| 0 <= j < i ==> (#[trigger] m[j]).0 != id@,
        decreases n - i,
    {
        if bytes_eq(history.records[i].0.as_slice(), id) {
            let d = history.records[i].1;
            let nd = if d.usage_count < u32::MAX {
                HistoryData { last_used: now, usage_count: d.usage_count + 1 }
            } else {
                HistoryData { last_used: now, usage_count: d.usage_count }
            };
            assert(nd == bump_spec(d, now));
            let e = &mut history.records[i];
            e.1 = nd;
            proof {
                assert(contains_id(m, id@)) by {
                    assert(m[i as int].0 == id@);
                }
                assert forall|j: int| 0 <= j < m.len() implies history@[j] == update_spec(
                    m,
                    id@,
                    now,
                )[j] by {
                    if j != i {
                        assert(m[j].0 != id@ || j == i) by {
                            if j < i {
                            } else if j > i {
                                assert(ids_unique(m));
                            }
                        }
                    }
                }
                assert(history@ =~= update_spec(m, id@, now));
                assert forall|a: int, b: int|
                    0 <= a < b < history@.len() implies (#[trigger] history@[a]).0 != (
                #[trigger] history@[b]).0 by {
                    assert(history@[a].0 == m[a].0 && history@[b].0 == m[b].0);
                }
                assert forall|a: int| 0 <= a < history@.len() implies id_ok(
                    (#[trigger] history@[a]).0,
                ) by {
                    assert(history@[a].0 == m[a].0);
                }
            }
            return ;
        }
        i = i + 1;
    }
    let idv = slice_to_vec(id);
    history.records.push((idv, HistoryData { last_used: now, usage_count: 1 }));
    proof {
        assert(!contains_id(m, id@));
        assert(history@ =~= m.push((id@, HistoryData { last_used: now, usage_count: 1 })));
        let m2 = history@;
        assert forall|a: int, b: int|
            0 <= a < b < m2.len() implies (#[trigger] m2[a]).0 != (#[trigger] m2[b]).0 by {
            if b < m.len() {
            } else {
                assert(m2[b].0 == id@);
                assert(m2[a] == m[a]);
            }
        }
        assert forall|a: int| 0 <= a < m2.len() implies id_ok((#[trigger] m2[a]).0) by {
            if a < m.len() {
                assert(m2[a] == m[a]);
            }
        }
    }
}

/// Append the decimal rendering of `n` to `out`.
fn push_dec(out: &mut Vec<u8>, n: u64)
    ensures
        final(out)@ == old(out)@ + dec_digits(n as int),
    decreases n,
{
    if n < 10 {
        out.push(48 + n as u8);
        assert(out@ =~= old(out)@ + dec_digits(n as int));
    } else {
        push_dec(out, n / 10);
        out.push(48 + (n % 10) as u8);
        assert(out@ =~= old(out)@ + dec_digits(n as int));
    }
}

// ------------------------------------------------------------------
// The on-disk format
// ------------------------------------------------------------------

/// One record without its line terminator: usage count, space, last-used
/// time, space, id.
pub open spec fn record_body(r: (Seq<u8>, HistoryData)) -> Seq<u8> {
    dec_digits(r.1.usage_count as int) + seq![32u8] + dec_digits(r.1.last_used as int) + seq![32u8]
        + r.0
}

/// One full line of the history file.
pub open spec fn record_line(r: (Seq<u8>, HistoryData)) -> Seq<u8> {
    record_body(r) + seq![10u8]
}

/// The serialized form of a whole mapping: its records' lines in order.
pub open spec fn spec_render(m: Seq<(Seq<u8>, HistoryData)>) -> Seq<u8>
    decreases m.len(),
{
    if m.len() == 0 {
        Seq::empty()
    } else {
        spec_render(m.drop_last()) + record_line(m.last())
    }
}

/// Parse one line (without its terminator) as a record.
pub open spec fn spec_parse_record(line: Seq<u8>) -> Option<(Seq<u8>, HistoryData)> {
    match find_byte(line, 32) {
        None => None,
        Some(k1) => if 0 <= k1 < line.len() {
            let seg1 = line.take(k1);
            let rest = line.skip(k1 + 1);
            match find_byte(rest, 32) {
                None => None,
                Some(k2) => if 0 <= k2 < rest.len() {
                    let seg2 = rest.take(k2);
                    let id = rest.skip(k2 + 1);
                    if dec_seg_valid(seg1, u32::MAX as int) && dec_seg_valid(
                        seg2,
                        u64::MAX as int,
                    ) {
                        Some(
                            (
                                id,
                                HistoryData {
                                    last_used: digits_val(seg2) as u64,
                                    usage_count: digits_val(seg1) as u32,
                                },
                            ),
                        )
                    } else {
                        None
                    }
                } else {
                    None
                },
            }
        } else {
            None
        },
    }
}

/// Parse a whole file: a sequence of newline-terminated records.  Any
/// malformed line makes the whole parse fail.
pub open spec fn spec_parse_records(s: Seq<u8>) -> Option<Seq<(Seq<u8>, HistoryData)>>
    decreases s.len(),
{
    if s.len() == 0 {
        Some(Seq::empty())
    } else {
        match find_byte(s, 10) {
            None => None,
            Some(k) => if 0 <= k < s.len() {
                match spec_parse_record(s.take(k)) {
                    None => None,
                    Some(rec) => match spec_parse_records(s.skip(k + 1)) {
                        None => None,
                        Some(rest) => Some(seq![rec] + rest),
                    },
                }
            } else {
                None
            },
        }
    }
}

/// The oldest last-used time that survives pruning.
pub open spec fn cutoff_spec(now: u64, days: u32) -> int {
    if now >= days * 86400 {
        now - days * 86400
    } else {
        0
    }
}

/// The records whose last use is at or after the cutoff, in order.
pub open spec fn prune_rec(m: Seq<(Seq<u8>, HistoryData)>, cutoff: int) -> Seq<
    (Seq<u8>, HistoryData),
>
    decreases m.len(),
{
    if m.len() == 0 {
        Seq::empty()
    } else {
        prune_rec(m.drop_last(), cutoff) + (if m.last().1.last_used >= cutoff {
            seq![m.last()]
        } else {
            Seq::empty()
        })
    }
}

/// What loading yields from file contents `s` at time `now` with a retention
/// of `days` (0 disables pruning): the parsed records, pruned; or an empty
/// mapping when the file is malformed or holds duplicate ids.
pub open spec fn spec_load_history(s: Seq<u8>, now: u64, days: u32) -> Seq<
    (Seq<u8>, HistoryData),
> {
    match spec_parse_records(s) {
        None => Seq::empty(),
        Some(rs) => if ids_unique(rs) {
            if days == 0 {
                rs
            } else {
                prune_rec(rs, cutoff_spec(now, days))
            }
        } else {
            Seq::empty()
        },
    }
}

/// Parse one line (without its terminator).
fn parse_line(line: &[u8]) -> (r: Option<(Vec<u8>, HistoryData)>)
    ensures
        match (r, spec_parse_record(line@)) {
            (Some(rec), Some(srec)) => rec.0@ == srec.0 && rec.1 == srec.1,
            (None, None) => true,
            _ => false,
        },
{
    assert(line@.skip(0) =~= line@);
    let n = line.len();
    let k1 = match find_byte_from(line, 32, 0) {
        Some(k) => k,
        None => {
            return None;
        },
    };
    let seg1 = slice_subrange(line, 0, k1);
    assert(seg1@ =~= line@.take(k1 as int));
    let count = match parse_dec(seg1, 0xffff_ffff) {
        Some(v) => v,
        None => {
            return None;
        },
    };
    assert(k1 < n);
    let ghost rest = line@.skip(k1 + 1);
    let k2 = match find_byte_from(line, 32, k1 + 1) {
        Some(k) => k,
        None => {
            return None;
        },
    };
    let seg2 = slice_subrange(line, k1 + 1, k2);
    assert(seg2@ =~= rest.take(k2 - (k1 + 1)));
    let last = match parse_dec(seg2, 0xffff_ffff_ffff_ffff) {
        Some(v) => v,
        None => {
            return None;
        },
    };
    assert(k2 < n);
    let idv = slice_to_vec(slice_subrange(line, k2 + 1, n));
    assert(idv@ =~= rest.skip(k2 + 1 - (k1 + 1)));
    Some((idv, HistoryData { last_used: last, usage_count: count as u32 }))
}

/// Parse a whole file into its record list.
fn parse_all(text: &[u8]) -> (r: Option<Vec<(Vec<u8>, HistoryData)>>)
    ensures
        match (r, spec_parse_records(text@)) {
            (Some(v), Some(m)) => recs_model(v@) == m,
            (None, None) => true,
            _ => false,
        },
{
    let mut out: Vec<(Vec<u8>, HistoryData)> = Vec::new();
    let mut pos: usize = 0;
    assert(text@.skip(0) =~= text@);
    assert(recs_model(out@) =~= Seq::<(Seq<u8>, HistoryData)>::empty());
    while pos < text.len()
        invariant
            pos <= text@.len(),
            spec_parse_records(text@) == (match spec_parse_records(text@.skip(pos as int)) {
                None => None::<Seq<(Seq<u8>, HistoryData)>>,
                Some(rest) => Some(recs_model(out@) + rest),
            }),
        decreases text@.len() - pos,
    {
        let ghost suf = text@.skip(pos as int);
        let nl = match find_byte_from(text, 10, pos) {
            Some(j) => j,
            None => {
                assert(spec_parse_records(suf) is None);
                return None;
            },
        };
        let ghost k = nl - pos as int;
        let line = slice_subrange(text, pos, nl);
        assert(line@ =~= suf.take(k));
        let rec = match parse_line(line) {
            Some(rc) => rc,
            None => {
                assert(spec_parse_records(suf) is None);
                return None;
            },
        };
        let ghost pre = out@;
        out.push(rec);
        proof {
            assert(suf.skip(k + 1) =~= text@.skip(nl + 1));
            let srec = spec_parse_record(line@).unwrap();
            assert(recs_model(out@) =~= recs_model(pre).push(srec));
            assert(spec_parse_records(suf) == (match spec_parse_records(suf.skip(k + 1)) {
                None => None::<Seq<(Seq<u8>, HistoryData)>>,
                Some(rest) => Some(seq![srec] + rest),
            }));
            if spec_parse_records(text@.skip(nl + 1)) is Some {
                let rest2 = spec_parse_records(text@.skip(nl + 1)).unwrap();
                assert(recs_model(pre) + (seq![srec] + rest2) =~= recs_model(out@) + rest2);
            }
        }
        pos = nl + 1;
    }
    proof {
        assert(text@.skip(pos as int) =~= Seq::<u8>::empty());
        assert(spec_parse_records(text@.skip(pos as int)) == Some(
            Seq::<(Seq<u8>, HistoryData)>::empty(),
        ));
        assert(recs_model(out@) + Seq::<(Seq<u8>, HistoryData)>::empty() =~= recs_model(out@));
    }
    Some(out)
}

/// A pruned mapping only holds ids of the original mapping.
proof fn lemma_prune_contains(m: Seq<(Seq<u8>, HistoryData)>, cutoff: int, id: Seq<u8>)
    requires
        contains_id(prune_rec(m, cutoff), id),
    ensures
        contains_id(m, id),
    decreases m.len(),
{
    let pr = prune_rec(m, cutoff);
    let i = choose|i: int| 0 <= i < pr.len() && (#[trigger] pr[i]).0 == id;
    let dl = m.drop_last();
    let pdl = prune_rec(dl, cutoff);
    if i < pdl.len() {
        assert(pdl[i] == pr[i]);
        lemma_prune_contains(dl, cutoff, id);
        let j = choose|j: int| 0 <= j < dl.len() && (#[trigger] dl[j]).0 == id;
        assert(m[j].0 == id);
    } else {
        assert(pr[i] == m.last());
        assert(m[m.len() - 1].0 == id);
    }
}

/// Pruning keeps ids pairwise distinct.
proof fn lemma_prune_unique(m: Seq<(Seq<u8>, HistoryData)>, cutoff: int)
    requires
        ids_unique(m),
    ensures
        ids_unique(prune_rec(m, cutoff)),
    decreases m.len(),
{
    if m.len() > 0 {
        let dl = m.drop_last();
        assert forall|a: int, b: int|
            0 <= a < b < dl.len() implies (#[trigger] dl[a]).0 != (#[trigger] dl[b]).0 by {
            assert(dl[a] == m[a] && dl[b] == m[b]);
        }
        lemma_prune_unique(dl, cutoff);
        let pdl = prune_rec(dl, cutoff);
        let pr = prune_rec(m, cutoff);
        if m.last().1.last_used >= cutoff {
            assert forall|a: int| 0 <= a < pdl.len() implies (#[trigger] pdl[a]).0 != m.last().0 by {
                if pdl[a].0 == m.last().0 {
                    assert(contains_id(pdl, m.last().0));
                    lemma_prune_contains(dl, cutoff, m.last().0);
                    let j = choose|j: int|
                        0 <= j < dl.len() && (#[trigger] dl[j]).0 == m.last().0;
                    assert(m[j].0 == m[m.len() - 1].0);
                }
            }
            assert forall|a: int, b: int|
                0 <= a < b < pr.len() implies (#[trigger] pr[a]).0 != (#[trigger] pr[b]).0 by {
                if b < pdl.len() {
                    assert(pr[a] == pdl[a] && pr[b] == pdl[b]);
                } else {
                    assert(pr[b] == m.last());
                    assert(pr[a] == pdl[a]);
                }
            }
        } else {
            assert(pr =~= pdl);
        }
    }
}

/// Pruning keeps ids newline-free.
proof fn lemma_prune_ids_ok(m: Seq<(Seq<u8>, HistoryData)>, cutoff: int)
    requires
        ids_ok(m),
    ensures
        ids_ok(prune_rec(m, cutoff)),
    decreases m.len(),
{
    if m.len() > 0 {
        let dl = m.drop_last();
        assert forall|a: int| 0 <= a < dl.len() implies id_ok((#[trigger] dl[a]).0) by {
            assert(dl[a] == m[a]);
        }
        lemma_prune_ids_ok(dl, cutoff);
        let pdl = prune_rec(dl, cutoff);
        let pr = prune_rec(m, cutoff);
        assert forall|a: int| 0 <= a < pr.len() implies id_ok((#[trigger] pr[a]).0) by {
            if a < pdl.len() {
                assert(pr[a] == pdl[a]);
            } else {
                assert(pr[a] == m.last());
                assert(m.last() == m[m.len() - 1]);
            }
        }
    }
}

/// Successfully parsed records carry newline-free ids: each id sits inside
/// one line of the file.
proof fn lemma_parse_records_ids_ok(s: Seq<u8>)
    requires
        spec_parse_records(s) is Some,
    ensures
        ids_ok(spec_parse_records(s).unwrap()),
    decreases s.len(),
{
    if s.len() == 0 {
    } else {
        lemma_find_byte_props(s, 10);
        let k = find_byte(s, 10).unwrap();
        let line = s.take(k);
        let rec = spec_parse_record(line).unwrap();
        lemma_parse_records_ids_ok(s.skip(k + 1));
        let rest = spec_parse_records(s.skip(k + 1)).unwrap();
        assert(id_ok(rec.0)) by {
            lemma_find_byte_props(line, 32);
            let k1 = find_byte(line, 32).unwrap();
            let r1 = line.skip(k1 + 1);
            lemma_find_byte_props(r1, 32);
            let k2 = find_byte(r1, 32).unwrap();
            let id = r1.skip(k2 + 1);
            assert forall|i: int| 0 <= i < id.len() implies #[trigger] id[i] != 10 by {
                assert(id[i] == r1[k2 + 1 + i]);
                assert(r1[k2 + 1 + i] == line[k1 + 1 + k2 + 1 + i]);
                assert(line[k1 + 1 + k2 + 1 + i] == s[k1 + 1 + k2 + 1 + i]);
            }
        }
        let m = spec_parse_records(s).unwrap();
        assert(m == seq![rec] + rest);
        assert forall|a: int| 0 <= a < m.len() implies id_ok((#[trigger] m[a]).0) by {
            if a == 0 {
                assert(m[0] == rec);
            } else {
                assert(m[a] == rest[a - 1]);
            }
        }
    }
}

/// Load the history from the file contents `text` as read at time `now`,
/// keeping only records used within the last `days` days (0 keeps all).
/// A malformed file, or one with duplicate ids, yields an empty history.
pub fn load_history(text: &[u8], now: u64, days: u32) -> (h: History)
    ensures
        h.wf(),
        h@ == spec_load_history(text@, now, days),
{
    let recs = match parse_all(text) {
        Some(v) => v,
        None => {
            return History::new();
        },
    };
    let ghost m = recs_model(recs@);
    proof {
        lemma_parse_records_ids_ok(text@);
    }
    let n = recs.len();
    let mut i: usize = 0;
    while i < n
        invariant
            n == recs@.len(),
            m == recs_model(recs@),
            spec_parse_records(text@) == Some(m),
            ids_ok(m),
            forall|a: int, b: int| 0 <= a < b < m.len() && a < i ==> (#[trigger] m[a]).0 != (
            #[trigger] m[b]).0,
        decreases n - i,
    {
        let mut j: usize = i + 1;
        while j < n
            invariant
                n == recs@.len(),
                m == recs_model(recs@),
                spec_parse_records(text@) == Some(m),
                i < n,
                i < j,
                forall|b: int| i < b < j ==> (#[trigger] m[b]).0 != m[i as int].0,
            decreases n - j,
        {
            if bytes_eq(recs[i].0.as_slice(), recs[j].0.as_slice()) {
                assert(m[i as int].0 == m[j as int].0);
                return History::new();
            }
            j = j + 1;
        }
        i = i + 1;
    }
    assert(ids_unique(m));
    if days == 0 {
        let h = History { records: recs };
        assert(h@ == m);
        return h;
    }
    let prod: u64 = (days as u64) * 86400;
    let cut: u64 = if now >= prod {
        now - prod
    } else {
        0
    };
    assert(cut as int == cutoff_spec(now, days));
    let mut kept: Vec<(Vec<u8>, HistoryData)> = Vec::new();
    let mut recs = recs;
    assert(recs_model(kept@) =~= prune_rec(m.take(0), cut as int));
    let mut k: usize = 0;
    while k < n
        invariant
            n == m.len(),
            k <= n,
            m == recs_model(recs@),
            recs@.len() == n,
            recs_model(kept@) == prune_rec(m.take(k as int), cut as int),
        decreases n - k,
    {
        let keep = recs[k].1.last_used >= cut;
        if keep {
            let ghost pk = kept@;
            let p = (slice_to_vec(recs[k].0.as_slice()), recs[k].1);
            kept.push(p);
            assert(recs_model(kept@) =~= recs_model(pk).push((recs@[k as int].0@,
            recs@[k as int].1)));
        }
        proof {
            assert(m.take(k + 1).drop_last() =~= m.take(k as int));
            assert(m.take(k + 1).last() == m[k as int]);
            assert(recs_model(kept@) =~= prune_rec(m.take(k + 1), cut as int));
        }
        k = k + 1;
    }
    proof {
        assert(m.take(n as int) =~= m);
        lemma_prune_unique(m, cut as int);
        lemma_prune_ids_ok(m, cut as int);
    }
    let h = History { records: kept };
    h
}

/// Serialize the full mapping, one line per record.
pub fn save_history(history: &History) -> (r: Vec<u8>)
    ensures
        r@ == spec_render(history@),
{
    let mut out: Vec<u8> = Vec::new();
    let n = history.records.len();
    assert(out@ =~= spec_render(history@.take(0)));
    for i in 0..n
        invariant
            n == history@.len(),
            n == history.records@.len(),
            out@ == spec_render(history@.take(i as int)),
    {
        let ghost pre = out@;
        let d = history.records[i].1;
        push_dec(&mut out, d.usage_count as u64);
        out.push(32);
        push_dec(&mut out, d.last_used);
        out.push(32);
        push_bytes(&mut out, history.records[i].0.as_slice());
        out.push(10);
        proof {
            assert(history@[i as int] == (history.records@[i as int].0@,
            history.records@[i as int].1));
            assert(out@ =~= pre + record_line(history@[i as int]));
            assert(history@.take(i + 1).drop_last() =~= history@.take(i as int));
            assert(history@.take(i + 1).last() == history@[i as int]);
            assert(out@ =~= spec_render(history@.take(i + 1)));
        }
    }
    assert(history@.take(n as int) =~= history@);
    out
}

// ------------------------------------------------------------------
// Round trip: what is saved is loaded back unchanged
// ------------------------------------------------------------------

proof fn lemma_render_head(m: Seq<(Seq<u8>, HistoryData)>)
    requires
        m.len() > 0,
    ensures
        spec_render(m) == record_line(m[0]) + spec_render(m.skip(1)),
    decreases m.len(),
{
    if m.len() == 1 {
        assert(m.drop_last() =~= Seq::<(Seq<u8>, HistoryData)>::empty());
        assert(m.skip(1) =~= Seq::<(Seq<u8>, HistoryData)>::empty());
        assert(spec_render(m) =~= record_line(m[0]) + spec_render(m.skip(1)));
    } else {
        let dl = m.drop_last();
        lemma_render_head(dl);
        assert(m.skip(1).drop_last() =~= dl.skip(1));
        assert(m.skip(1).last() == m.last());
        assert(dl[0] == m[0]);
        assert(spec_render(m.skip(1)) == spec_render(dl.skip(1)) + record_line(m.last()));
        assert(spec_render(m) =~= record_line(m[0]) + spec_render(m.skip(1)));
    }
}

proof fn lemma_record_body_no_newline(r: (Seq<u8>, HistoryData))
    requires
        id_ok(r.0),
    ensures
        forall|k: int| 0 <= k < record_body(r).len() ==> #[trigger] record_body(r)[k] != 10,
{
    let d1 = dec_digits(r.1.usage_count as int);
    let d2 = dec_digits(r.1.last_used as int);
    lemma_dec_digits_correct(r.1.usage_count as int);
    lemma_dec_digits_correct(r.1.last_used as int);
    let body = record_body(r);
    assert forall|k: int| 0 <= k < body.len() implies #[trigger] body[k] != 10 by {
        if k < d1.len() {
            assert(body[k] == d1[k]);
            assert(is_digit(d1[k]));
        } else if k == d1.len() {
            assert(body[k] == 32);
        } else if k < d1.len() + 1 + d2.len() {
            assert(body[k] == d2[k - (d1.len() + 1)]);
            assert(is_digit(d2[k - (d1.len() + 1)]));
        } else if k == d1.len() + 1 + d2.len() {
            assert(body[k] == 32);
        } else {
            assert(body[k] == r.0[k - (d1.len() + 1 + d2.len() + 1)]);
        }
    }
}

proof fn lemma_parse_record_of_body(r: (Seq<u8>, HistoryData))
    ensures
        spec_parse_record(record_body(r)) == Some(r),
{
    let d1 = dec_digits(r.1.usage_count as int);
    let d2 = dec_digits(r.1.last_used as int);
    lemma_dec_digits_correct(r.1.usage_count as int);
    lemma_dec_digits_correct(r.1.last_used as int);
    let body = record_body(r);
    assert(body[d1.len() as int] == 32);
    assert forall|j: int| 0 <= j < d1.len() implies body[j] != 32 by {
        assert(body[j] == d1[j]);
        assert(is_digit(d1[j]));
    }
    lemma_find_byte_at(body, 32, d1.len() as int);
    let seg1 = body.take(d1.len() as int);
    assert(seg1 =~= d1);
    let rest = body.skip(d1.len() as int + 1);
    assert(rest =~= d2 + seq![32u8] + r.0);
    assert(rest[d2.len() as int] == 32);
    assert forall|j: int| 0 <= j < d2.len() implies rest[j] != 32 by {
        assert(rest[j] == d2[j]);
        assert(is_digit(d2[j]));
    }
    lemma_find_byte_at(rest, 32, d2.len() as int);
    let seg2 = rest.take(d2.len() as int);
    assert(seg2 =~= d2);
    let id = rest.skip(d2.len() as int + 1);
    assert(id =~= r.0);
    assert(dec_seg_valid(seg1, u32::MAX as int));
    assert(dec_seg_valid(seg2, u64::MAX as int));
    let parsed = spec_parse_record(body).unwrap();
    assert(parsed.0 == r.0);
    assert(parsed.1 == r.1);
    assert(parsed == r);
}

/// Parsing undoes rendering: the saved file loads back to the very records
/// that were saved.
pub proof fn lemma_parse_render(m: Seq<(Seq<u8>, HistoryData)>)
    requires
        ids_ok(m),
    ensures
        spec_parse_records(spec_render(m)) == Some(m),
    decreases m.len(),
{
    if m.len() == 0 {
        assert(spec_render(m) =~= Seq::<u8>::empty());
        assert(spec_parse_records(spec_render(m)) == Some(Seq::<(Seq<u8>, HistoryData)>::empty()));
        assert(Seq::<(Seq<u8>, HistoryData)>::empty() =~= m);
    } else {
        lemma_render_head(m);
        let s = spec_render(m);
        let body = record_body(m[0]);
        let k = body.len() as int;
        assert(record_line(m[0])[k] == 10);
        assert(s[k] == 10);
        assert(id_ok(m[0].0));
        lemma_record_body_no_newline(m[0]);
        assert forall|j: int| 0 <= j < k implies s[j] != 10 by {
            assert(s[j] == record_line(m[0])[j]);
            assert(record_line(m[0])[j] == body[j]);
        }
        lemma_find_byte_at(s, 10, k);
        assert(s.take(k) =~= body);
        lemma_parse_record_of_body(m[0]);
        assert(s.skip(k + 1) =~= spec_render(m.skip(1)));
        assert forall|a: int| 0 <= a < m.skip(1).len() implies id_ok(
            (#[trigger] m.skip(1)[a]).0,
        ) by {
            assert(m.skip(1)[a] == m[a + 1]);
        }
        lemma_parse_render(m.skip(1));
        assert(spec_parse_records(s) == Some(seq![m[0]] + m.skip(1)));
        assert(seq![m[0]] + m.skip(1) =~= m);
    }
}

/// Recording a launch keeps the mapping well formed.
pub proof fn lemma_update_wf(m: Seq<(Seq<u8>, HistoryData)>, id: Seq<u8>, now: u64)
    requires
        ids_unique(m),
        ids_ok(m),
        id_ok(id),
    ensures
        ids_unique(update_spec(m, id, now)),
        ids_ok(update_spec(m, id, now)),
{
    let m2 = update_spec(m, id, now);
    if contains_id(m, id) {
        assert forall|a: int, b: int|
            0 <= a < b < m2.len() implies (#[trigger] m2[a]).0 != (#[trigger] m2[b]).0 by {
            assert(m2[a].0 == m[a].0 && m2[b].0 == m[b].0);
        }
        assert forall|a: int| 0 <= a < m2.len() implies id_ok((#[trigger] m2[a]).0) by {
            assert(m2[a].0 == m[a].0);
        }
    } else {
        assert forall|a: int, b: int|
            0 <= a < b < m2.len() implies (#[trigger] m2[a]).0 != (#[trigger] m2[b]).0 by {
            if b == m.len() {
                assert(m2[b].0 == id);
                assert(m2[a] == m[a]);
                assert(!contains_id(m, id));
            } else {
                assert(m2[a] == m[a] && m2[b] == m[b]);
            }
        }
        assert forall|a: int| 0 <= a < m2.len() implies id_ok((#[trigger] m2[a]).0) by {
            if a < m.len() {
                assert(m2[a] == m[a]);
            } else {
                assert(m2[a].0 == id);
            }
        }
    }
}

/// What a recorded launch does to the stored statistics of its id.
pub proof fn lemma_update_lookup(m: Seq<(Seq<u8>, HistoryData)>, id: Seq<u8>, now: u64)
    requires
        ids_unique(m),
    ensures
        lookup_spec(update_spec(m, id, now), id) == (match lookup_spec(m, id) {
            Some(d) => Some(bump_spec(d, now)),
            None => Some(HistoryData { last_used: now, usage_count: 1 }),
        }),
{
    let m2 = update_spec(m, id, now);
    if contains_id(m, id) {
        let i = choose|i: int| 0 <= i < m.len() && (#[trigger] m[i]).0 == id;
        assert forall|j: int| 0 <= j < i implies (#[trigger] m[j]).0 != id by {
            if m[j].0 == id {
                assert(m[j].0 != m[i].0);
            }
        }
        lemma_lookup_found(m, id, i);
        assert(m2[i].0 == id && m2[i].1 == bump_spec(m[i].1, now));
        assert forall|j: int| 0 <= j < i implies (#[trigger] m2[j]).0 != id by {
            assert(m2[j].0 == m[j].0);
        }
        lemma_lookup_found(m2, id, i);
    } else {
        assert forall|j: int| 0 <= j < m.len() implies (#[trigger] m[j]).0 != id by {
            if m[j].0 == id {
                assert(contains_id(m, id));
            }
        }
        lemma_lookup_absent(m, id);
        let i = m.len() as int;
        assert(m2[i].0 == id);
        assert forall|j: int| 0 <= j < i implies (#[trigger] m2[j]).0 != id by {
            assert(m2[j] == m[j]);
        }
        lemma_lookup_found(m2, id, i);
    }
}

/// The history round trip: load what was saved after recording a launch, and
/// the launched id's count has grown by exactly one while its last-used time
/// is the update's timestamp; every record survives the reload unchanged.
pub proof fn lemma_history_round_trip(
    m: Seq<(Seq<u8>, HistoryData)>,
    id: Seq<u8>,
    now: u64,
    reload_now: u64,
)
    requires
        ids_unique(m),
        ids_ok(m),
        id_ok(id),
        match lookup_spec(m, id) {
            Some(d) => d.usage_count < u32::MAX,
            None => true,
        },
    ensures
        ({
            let m2 = update_spec(m, id, now);
            let reloaded = spec_load_history(spec_render(m2), reload_now, 0);
            &&& reloaded == m2
            &&& lookup_spec(reloaded, id) == Some(
                HistoryData {
                    last_used: now,
                    usage_count: ((match lookup_spec(m, id) {
                        Some(d) => d.usage_count,
                        None => 0u32,
                    }) + 1) as u32,
                },
            )
        }),
{
    let m2 = update_spec(m, id, now);
    lemma_update_wf(m, id, now);
    lemma_parse_render(m2);
    lemma_update_lookup(m, id, now);
}

} // verus!

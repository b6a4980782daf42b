//! Small byte-string helpers shared by the matching, history and controller
//! modules, and the query-prefix test of the search box.

use vstd::prelude::*;

verus! {

/// Equality of two byte slices, element by element.
pub fn bytes_eq(a: &[u8], b: &[u8]) -> (r: bool)
    ensures
        r == (a@ == b@),
{
    if a.len() != b.len() {
        assert(a@.len() != b@.len());
        return false;
    }
    for i in 0..a.len()
        invariant
            a@.len() == b@.len(),
            forall|j: int| 0 <= j < i ==> a@[j] == b@[j],
    {
        if a[i] != b[i] {
            return false;
        }
    }
    assert(a@ =~= b@);
    true
}

/// True when `p` is a prefix of `t`.
pub fn starts_with(t: &[u8], p: &[u8]) -> (r: bool)
    ensures
        r == p@.is_prefix_of(t@),
{
    if p.len() > t.len() {
        return false;
    }
    for i in 0..p.len()
        invariant
            p@.len() <= t@.len(),
            forall|j: int| 0 <= j < i ==> t@[j] == p@[j],
    {
        if t[i] != p[i] {
            assert(!p@.is_prefix_of(t@));
            return false;
        }
    }
    assert(p@ =~= t@.take(p@.len() as int));
    true
}

/// Offset of the first occurrence of `b` in `s`, if any.
pub open spec fn find_byte(s: Seq<u8>, b: u8) -> Option<int>
    decreases s.len(),
{
    if s.len() == 0 {
        None
    } else if s[0] == b {
        Some(0)
    } else {
        match find_byte(s.skip(1), b) {
            None => None,
            Some(i) => Some(i + 1),
        }
    }
}

/// What `find_byte` answers: the offset it returns holds `b` and nothing
/// before it does; `None` means `b` does not occur at all.
pub proof fn lemma_find_byte_props(s: Seq<u8>, b: u8)
    ensures
        match find_byte(s, b) {
            None => forall|j: int| 0 <= j < s.len() ==> s[j] != b,
            Some(i) => 0 <= i < s.len() && s[i] == b && (forall|j: int| 0 <= j < i ==> s[j] != b),
        },
    decreases s.len(),
{
    if s.len() == 0 {
    } else if s[0] == b {
    } else {
        lemma_find_byte_props(s.skip(1), b);
        match find_byte(s.skip(1), b) {
            None => {
                assert forall|j: int| 0 <= j < s.len() implies s[j] != b by {
                    if j > 0 {
                        assert(s.skip(1)[j - 1] == s[j]);
                    }
                }
            },
            Some(i) => {
                assert(s.skip(1)[i] == s[i + 1]);
                assert forall|j: int| 0 <= j < i + 1 implies s[j] != b by {
                    if j > 0 {
                        assert(s.skip(1)[j - 1] == s[j]);
                    }
                }
            },
        }
    }
}

/// Conversely, a first occurrence at `k` pins `find_byte` to `Some(k)`.
pub proof fn lemma_find_byte_at(s: Seq<u8>, b: u8, k: int)
    requires
        0 <= k < s.len(),
        s[k] == b,
        forall|j: int| 0 <= j < k ==> s[j] != b,
    ensures
        find_byte(s, b) == Some(k),
    decreases s.len(),
{
    if k == 0 {
    } else {
        assert(s.skip(1)[k - 1] == s[k]);
        assert forall|j: int| 0 <= j < k - 1 implies s.skip(1)[j] != b by {
            assert(s.skip(1)[j] == s[j + 1]);
        }
        lemma_find_byte_at(s.skip(1), b, k - 1);
    }
}

/// And when `b` occurs nowhere, `find_byte` answers `None`.
pub proof fn lemma_find_byte_none(s: Seq<u8>, b: u8)
    requires
        forall|j: int| 0 <= j < s.len() ==> s[j] != b,
    ensures
        find_byte(s, b) == None::<int>,
    decreases s.len(),
{
    if s.len() > 0 {
        assert forall|j: int| 0 <= j < s.len() - 1 implies s.skip(1)[j] != b by {
            assert(s.skip(1)[j] == s[j + 1]);
        }
        lemma_find_byte_none(s.skip(1), b);
    }
}

/// Scan `s` for the first `b` at or after `from`.
pub fn find_byte_from(s: &[u8], b: u8, from: usize) -> (r: Option<usize>)
    requires
        from <= s@.len(),
    ensures
        match r {
            Some(j) => {
                &&& from <= j < s@.len()
                &&& s@[j as int] == b
                &&& forall|m: int| from <= m < j ==> s@[m] != b
                &&& find_byte(s@.skip(from as int), b) == Some(j - from)
            },
            None => {
                &&& forall|m: int| from <= m < s@.len() ==> s@[m] != b
                &&& find_byte(s@.skip(from as int), b) == None::<int>
            },
        },
{
    let mut j = from;
    while j < s.len()
        invariant
            from <= j <= s@.len(),
            forall|m: int| from <= m < j ==> s@[m] != b,
        decreases s@.len() - j,
    {
        if s[j] == b {
            proof {
                let suf = s@.skip(from as int);
                assert(suf[j - from] == s@[j as int]);
                assert forall|m: int| 0 <= m < j - from implies suf[m] != b by {
                    assert(suf[m] == s@[from + m]);
                }
                lemma_find_byte_at(suf, b, j - from);
            }
            return Some(j);
        }
        j = j + 1;
    }
    proof {
        let suf = s@.skip(from as int);
        assert forall|m: int| 0 <= m < suf.len() implies suf[m] != b by {
            assert(suf[m] == s@[from + m]);
        }
        lemma_find_byte_none(suf, b);
    }
    None
}

/// Offset of the last occurrence of `b` in `s`, if any.
pub open spec fn rfind_byte(s: Seq<u8>, b: u8) -> Option<int>
    decreases s.len(),
{
    if s.len() == 0 {
        None
    } else if s.last() == b {
        Some(s.len() - 1)
    } else {
        rfind_byte(s.drop_last(), b)
    }
}

/// A last occurrence at `k` pins `rfind_byte` to `Some(k)`.
pub proof fn lemma_rfind_byte_at(s: Seq<u8>, b: u8, k: int)
    requires
        0 <= k < s.len(),
        s[k] == b,
        forall|j: int| k < j < s.len() ==> s[j] != b,
    ensures
        rfind_byte(s, b) == Some(k),
    decreases s.len(),
{
    if k == s.len() - 1 {
    } else {
        assert(s.last() != b);
        assert(s.drop_last()[k] == s[k]);
        assert forall|j: int| k < j < s.len() - 1 implies s.drop_last()[j] != b by {
            assert(s.drop_last()[j] == s[j]);
        }
        lemma_rfind_byte_at(s.drop_last(), b, k);
    }
}

/// What `rfind_byte` answers: the offset it returns holds `b` and nothing
/// after it does; `None` means `b` does not occur at all.
pub proof fn lemma_rfind_byte_props(s: Seq<u8>, b: u8)
    ensures
        match rfind_byte(s, b) {
            None => forall|j: int| 0 <= j < s.len() ==> s[j] != b,
            Some(i) => 0 <= i < s.len() && s[i] == b && (forall|j: int|
                i < j < s.len() ==> s[j] != b),
        },
    decreases s.len(),
{
    if s.len() == 0 {
    } else if s.last() == b {
    } else {
        lemma_rfind_byte_props(s.drop_last(), b);
        match rfind_byte(s.drop_last(), b) {
            None => {
                assert forall|j: int| 0 <= j < s.len() implies s[j] != b by {
                    if j < s.len() - 1 {
                        assert(s.drop_last()[j] == s[j]);
                    }
                }
            },
            Some(i) => {
                assert(s.drop_last()[i] == s[i]);
                assert forall|j: int| i < j < s.len() implies s[j] != b by {
                    if j < s.len() - 1 {
                        assert(s.drop_last()[j] == s[j]);
                    }
                }
            },
        }
    }
}

/// When `b` occurs nowhere, `rfind_byte` answers `None`.
pub proof fn lemma_rfind_byte_none(s: Seq<u8>, b: u8)
    requires
        forall|j: int| 0 <= j < s.len() ==> s[j] != b,
    ensures
        rfind_byte(s, b) == None::<int>,
    decreases s.len(),
{
    if s.len() > 0 {
        assert forall|j: int| 0 <= j < s.len() - 1 implies s.drop_last()[j] != b by {
            assert(s.drop_last()[j] == s[j]);
        }
        lemma_rfind_byte_none(s.drop_last(), b);
    }
}

/// Scan `s` backwards for the last occurrence of `b`.
pub fn rfind_byte_in(s: &[u8], b: u8) -> (r: Option<usize>)
    ensures
        match r {
            Some(j) => rfind_byte(s@, b) == Some(j as int) && j < s@.len() && s@[j as int] == b,
            None => rfind_byte(s@, b) == None::<int>,
        },
{
    let mut j = s.len();
    while j > 0
        invariant
            j <= s@.len(),
            forall|m: int| j <= m < s@.len() ==> s@[m] != b,
        decreases j,
    {
        j = j - 1;
        if s[j] == b {
            proof {
                lemma_rfind_byte_at(s@, b, j as int);
            }
            return Some(j);
        }
    }
    proof {
        lemma_rfind_byte_none(s@, b);
    }
    None
}

/// The first `n` bytes of `s`.
pub fn slice_head<'a>(s: &'a [u8], n: usize) -> (r: &'a [u8])
    requires
        n <= s@.len(),
    ensures
        r@ == s@.take(n as int),
{
    let r = vstd::slice::slice_subrange(s, 0, n);
    assert(r@ =~= s@.take(n as int));
    r
}

/// The bytes of `s` from offset `n` on.
pub fn slice_tail<'a>(s: &'a [u8], n: usize) -> (r: &'a [u8])
    requires
        n <= s@.len(),
    ensures
        r@ == s@.skip(n as int),
{
    let r = vstd::slice::slice_subrange(s, n, s.len());
    assert(r@ =~= s@.skip(n as int));
    r
}

/// `needle` occurs in `hay` starting at offset `i`.
pub open spec fn is_substring_at(hay: Seq<u8>, needle: Seq<u8>, i: int) -> bool {
    0 <= i && i + needle.len() <= hay.len() && hay.subrange(i, i + needle.len()) == needle
}

/// `needle` occurs somewhere in `hay`.
pub open spec fn contains_subseq(hay: Seq<u8>, needle: Seq<u8>) -> bool {
    exists|i: int| is_substring_at(hay, needle, i)
}

/// Does `needle` occur in `hay` starting at offset `i`?
fn matches_at(hay: &[u8], needle: &[u8], i: usize) -> (r: bool)
    requires
        i + needle@.len() <= hay@.len(),
    ensures
        r == is_substring_at(hay@, needle@, i as int),
{
    let n = needle.len();
    let hn = hay.len();
    for j in 0..n
        invariant
            n == needle@.len(),
            hn == hay@.len(),
            i + n <= hn,
            forall|m: int| 0 <= m < j ==> hay@[i + m] == needle@[m],
    {
        if hay[i + j] != needle[j] {
            assert(hay@.subrange(i as int, i + needle@.len())[j as int] == hay@[i + j]);
            return false;
        }
    }
    assert(hay@.subrange(i as int, i + needle@.len()) =~= needle@);
    true
}

/// Substring search: does `needle` occur anywhere in `hay`?
pub fn contains_bytes(hay: &[u8], needle: &[u8]) -> (r: bool)
    ensures
        r == contains_subseq(hay@, needle@),
{
    if needle.len() > hay.len() {
        assert(!contains_subseq(hay@, needle@)) by {
            assert(forall|i: int| !is_substring_at(hay@, needle@, i));
        }
        return false;
    }
    if needle.len() == 0 {
        assert(is_substring_at(hay@, needle@, 0)) by {
            assert(hay@.subrange(0, 0) =~= needle@);
        }
        return true;
    }
    let hn = hay.len();
    let stop = hn - needle.len();
    let mut i: usize = 0;
    while i <= stop
        invariant
            1 <= needle@.len() <= hay@.len(),
            hn == hay@.len(),
            stop == hay@.len() - needle@.len(),
            stop < hn,
            i <= stop + 1,
            forall|m: int| 0 <= m < i ==> !is_substring_at(hay@, needle@, m),
        decreases stop + 1 - i,
    {
        if matches_at(hay, needle, i) {
            return true;
        }
        i = i + 1;
    }
    assert forall|m: int| !is_substring_at(hay@, needle@, m) by {
        if m > stop {
        }
    }
    false
}

/// ASCII whitespace, as trimmed from the ends of a query.
pub open spec fn is_space(b: u8) -> bool {
    b == 32 || b == 9 || b == 10 || b == 13
}

/// `s` without leading whitespace.
pub open spec fn trim_start_spec(s: Seq<u8>) -> Seq<u8>
    decreases s.len(),
{
    if s.len() == 0 {
        s
    } else if is_space(s[0]) {
        trim_start_spec(s.skip(1))
    } else {
        s
    }
}

/// `s` without trailing whitespace.
pub open spec fn trim_end_spec(s: Seq<u8>) -> Seq<u8>
    decreases s.len(),
{
    if s.len() == 0 {
        s
    } else if is_space(s.last()) {
        trim_end_spec(s.drop_last())
    } else {
        s
    }
}

/// `s` without leading and trailing whitespace.
pub open spec fn trim_spec(s: Seq<u8>) -> Seq<u8> {
    trim_end_spec(trim_start_spec(s))
}

proof fn lemma_trim_start_len(s: Seq<u8>)
    ensures
        trim_start_spec(s).len() <= s.len(),
    decreases s.len(),
{
    if s.len() > 0 && is_space(s[0]) {
        lemma_trim_start_len(s.skip(1));
    }
}

proof fn lemma_trim_end_len(s: Seq<u8>)
    ensures
        trim_end_spec(s).len() <= s.len(),
    decreases s.len(),
{
    if s.len() > 0 && is_space(s.last()) {
        lemma_trim_end_len(s.drop_last());
    }
}

/// Trimming never lengthens a string.
pub proof fn lemma_trim_len(s: Seq<u8>)
    ensures
        trim_spec(s).len() <= s.len(),
{
    lemma_trim_start_len(s);
    lemma_trim_end_len(trim_start_spec(s));
}

/// Copy of `s` with leading and trailing whitespace removed.
pub fn trim_bytes(s: &[u8]) -> (r: Vec<u8>)
    ensures
        r@ == trim_spec(s@),
{
    let mut lo: usize = 0;
    assert(s@.skip(0) =~= s@);
    while lo < s.len() && (s[lo] == 32 || s[lo] == 9 || s[lo] == 10 || s[lo] == 13)
        invariant
            lo <= s@.len(),
            trim_start_spec(s@) == trim_start_spec(s@.skip(lo as int)),
        decreases s@.len() - lo,
    {
        assert(s@.skip(lo as int)[0] == s@[lo as int]);
        assert(s@.skip(lo as int).skip(1) =~= s@.skip(lo + 1));
        lo = lo + 1;
    }
    proof {
        if lo < s@.len() {
            assert(s@.skip(lo as int)[0] == s@[lo as int]);
        }
        assert(trim_start_spec(s@) == s@.skip(lo as int));
    }
    let mut hi: usize = s.len();
    assert(s@.subrange(lo as int, s@.len() as int) =~= s@.skip(lo as int));
    while hi > lo && (s[hi - 1] == 32 || s[hi - 1] == 9 || s[hi - 1] == 10 || s[hi - 1] == 13)
        invariant
            lo <= hi <= s@.len(),
            trim_start_spec(s@) == s@.skip(lo as int),
            trim_end_spec(s@.skip(lo as int)) == trim_end_spec(s@.subrange(lo as int, hi as int)),
        decreases hi,
    {
        assert(s@.subrange(lo as int, hi as int).last() == s@[hi - 1]);
        assert(s@.subrange(lo as int, hi as int).drop_last() =~= s@.subrange(lo as int, hi - 1));
        hi = hi - 1;
    }
    proof {
        let cur = s@.subrange(lo as int, hi as int);
        if hi > lo {
            assert(cur.last() == s@[hi - 1]);
        }
        assert(trim_end_spec(s@.skip(lo as int)) == cur);
    }
    let mut out: Vec<u8> = Vec::new();
    assert(Seq::<u8>::empty() =~= s@.subrange(lo as int, lo as int));
    for k in lo..hi
        invariant
            lo <= hi <= s@.len(),
            out@ == s@.subrange(lo as int, k as int),
    {
        out.push(s[k]);
        assert(out@ =~= s@.subrange(lo as int, k + 1));
    }
    assert(out@ == trim_spec(s@));
    out
}

/// A query string asks for direct command execution when the configured
/// command prefix is non-empty and the query starts with it.
pub fn is_cmd(text: &[u8], cmd_prefix: &[u8]) -> (r: bool)
    ensures
        r == (cmd_prefix@.len() > 0 && cmd_prefix@.is_prefix_of(text@)),
{
    cmd_prefix.len() > 0 && starts_with(text, cmd_prefix)
}

/// Append all of `s` to `out`.
pub fn push_bytes(out: &mut Vec<u8>, s: &[u8])
    ensures
        final(out)@ == old(out)@ + s@,
{
    let n = s.len();
    for i in 0..n
        invariant
            n == s@.len(),
            out@ == old(out)@ + s@.take(i as int),
    {
        out.push(s[i]);
        assert(out@ =~= old(out)@ + s@.take(i + 1));
    }
    assert(out@ =~= old(out)@ + s@);
}

/// Copy of a byte vector, element by element.
pub fn bytes_clone(v: &Vec<u8>) -> (r: Vec<u8>)
    ensures
        r@ == v@,
{
    let mut out: Vec<u8> = Vec::new();
    for i in 0..v.len()
        invariant
            out@ == v@.take(i as int),
    {
        out.push(v[i]);
        assert(out@ =~= v@.take(i + 1 as int));
    }
    assert(out@ =~= v@);
    out
}

} // verus!

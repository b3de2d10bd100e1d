//! Definition files: the record type and its parser.
//!
//! A definition file is text.  Its first line is the interpreter directive.
//! Every line beginning with the two-byte marker `#~` is a metadata line:
//! the marker is stripped and the remainder, trimmed of blanks, must be
//! empty or read `depends_on = <name>,<name>,...` — the one recognized
//! field, an ordered list of definition names.  Lists from several metadata
//! lines concatenate in order.  The content hash is taken over the whole
//! raw file.

use crate::fuzzy::bytes_eq;
use crate::hashing::{content_hash, spec_content_hash};
use vstd::prelude::*;

verus! {

/// One parsed definition: a scripted recipe plus its declared dependencies.
#[derive(Debug)]
pub struct Definition {
    /// The file stem: the human-facing name the definition is requested by.
    pub name: Vec<u8>,
    /// The full path of the file, the key under which artifacts are
    /// recorded.
    pub path: Vec<u8>,
    /// The first line of the file: the interpreter directive.
    pub bang: Vec<u8>,
    /// Names of the definitions this one depends on, in declaration order.
    pub depends_on: Vec<Vec<u8>>,
    /// Digest of the raw file bytes.
    pub content_hash: u64,
    /// Combined digest of this definition and its dependency closure;
    /// equals `content_hash` until propagation.
    pub tree_hash: u64,
}

/// Why a definition file was rejected.
#[derive(PartialEq, Eq, Structural, Clone, Copy, Debug)]
pub enum ParseErrorKind {
    /// The file holds no bytes at all.
    EmptyFile,
    /// The bytes are not valid UTF-8 text.
    NotText,
    /// A metadata line is not an (optionally blank) `depends_on` assignment.
    BadMetadata,
    /// The file could not be read: its path is a dangling symbolic link.
    DanglingLink,
    /// The file could not be read at all.
    Unreadable,
}

/// A blank byte: space, tab or carriage return (so CRLF line ends do not
/// leak into names).
pub open spec fn is_blank(b: u8) -> bool {
    b == 32 || b == 9 || b == 13
}

/// Length of the first segment of `s` before `sep` (or all of `s`).
pub open spec fn seg_len(s: Seq<u8>, sep: u8) -> int
    decreases s.len(),
{
    if s.len() == 0 {
        0
    } else if s[0] == sep {
        0
    } else {
        1 + seg_len(s.drop_first(), sep)
    }
}

/// What `seg_len` means: the first occurrence of `sep`, or the length.
pub proof fn lemma_seg_len(s: Seq<u8>, sep: u8)
    ensures
        0 <= seg_len(s, sep) <= s.len(),
        forall|k: int| 0 <= k < seg_len(s, sep) ==> s[k] != sep,
        seg_len(s, sep) < s.len() ==> s[seg_len(s, sep)] == sep,
    decreases s.len(),
{
    if s.len() > 0 && s[0] != sep {
        lemma_seg_len(s.drop_first(), sep);
        assert(forall|k: int|
            1 <= k < seg_len(s, sep) ==> s.drop_first()[k - 1] == s[k] && s.drop_first()[k - 1]
                != sep);
        if seg_len(s, sep) < s.len() {
            assert(s.drop_first()[seg_len(s, sep) - 1] == sep);
        }
    }
}

/// Splits `s` at every occurrence of `sep`; `n` separators give `n + 1`
/// segments, empty ones included.
pub open spec fn split(s: Seq<u8>, sep: u8) -> Seq<Seq<u8>>
    decreases s.len(),
{
    let j = seg_len(s, sep);
    if j < 0 || j >= s.len() {
        seq![s]
    } else {
        seq![s.take(j)] + split(s.skip(j + 1), sep)
    }
}

/// Drops leading blanks.
pub open spec fn trim_front(s: Seq<u8>) -> Seq<u8>
    decreases s.len(),
{
    if s.len() > 0 && is_blank(s[0]) {
        trim_front(s.drop_first())
    } else {
        s
    }
}

/// Drops trailing blanks.
pub open spec fn trim_back(s: Seq<u8>) -> Seq<u8>
    decreases s.len(),
{
    if s.len() > 0 && is_blank(s.last()) {
        trim_back(s.drop_last())
    } else {
        s
    }
}

/// Drops blanks at both ends.
pub open spec fn trim(s: Seq<u8>) -> Seq<u8> {
    trim_back(trim_front(s))
}

/// `trim_front` keeps exactly the suffix after the leading blanks.
pub proof fn lemma_trim_front(s: Seq<u8>, lo: int)
    requires
        0 <= lo <= s.len(),
        forall|k: int| 0 <= k < lo ==> is_blank(#[trigger] s[k]),
        lo < s.len() ==> !is_blank(s[lo]),
    ensures
        trim_front(s) =~= s.skip(lo),
    decreases s.len(),
{
    if lo == 0 {
        if s.len() > 0 && is_blank(s[0]) {
            assert(false);
        }
        assert(s.skip(0) =~= s);
    } else {
        assert(is_blank(s[0]));
        assert(forall|k: int|
            0 <= k < lo - 1 ==> s.drop_first()[k] == s[k + 1] && is_blank(s[k + 1]));
        if lo - 1 < s.drop_first().len() {
            assert(s.drop_first()[lo - 1] == s[lo]);
        }
        lemma_trim_front(s.drop_first(), lo - 1);
        assert(s.drop_first().skip(lo - 1) =~= s.skip(lo));
    }
}

/// `trim_back` keeps exactly the prefix before the trailing blanks.
pub proof fn lemma_trim_back(s: Seq<u8>, hi: int)
    requires
        0 <= hi <= s.len(),
        forall|k: int| hi <= k < s.len() ==> is_blank(#[trigger] s[k]),
        hi > 0 ==> !is_blank(s[hi - 1]),
    ensures
        trim_back(s) =~= s.take(hi),
    decreases s.len(),
{
    if hi == s.len() {
        if s.len() > 0 && is_blank(s.last()) {
            assert(false);
        }
        assert(s.take(hi) =~= s);
    } else {
        assert(is_blank(s.last()));
        assert(forall|k: int|
            hi <= k < s.len() - 1 ==> s.drop_last()[k] == s[k] && is_blank(s[k]));
        lemma_trim_back(s.drop_last(), hi);
        assert(s.drop_last().take(hi) =~= s.take(hi));
    }
}

/// A well-formed dependency name: nonempty, without the quote and bracket
/// bytes of a quoted-list syntax, which this format does not use — a quoted
/// list is rejected rather than read as strange names.
pub open spec fn name_ok(n: Seq<u8>) -> bool {
    n.len() > 0 && forall|k: int|
        0 <= k < n.len() ==> (#[trigger] n[k]) != 34 && n[k] != 39 && n[k] != 91 && n[k] != 93
}

/// The bytes of the field name `depends_on`.
pub open spec fn depends_on_kw() -> Seq<u8> {
    seq![100u8, 101u8, 112u8, 101u8, 110u8, 100u8, 115u8, 95u8, 111u8, 110u8]
}

/// Parses one stripped metadata line.  A blank line contributes no names;
/// `depends_on = a,b` contributes its trimmed, well-formed names in order;
/// anything else — including a quoted or bracketed list — is malformed
/// (`None`).
pub open spec fn parse_meta_line(l: Seq<u8>) -> Option<Seq<Seq<u8>>> {
    let t = trim(l);
    if t.len() == 0 {
        Some(Seq::empty())
    } else if t.len() >= 10 && t.take(10) == depends_on_kw() {
        let rest = trim_front(t.skip(10));
        if rest.len() == 0 || rest[0] != 61 {
            Option::None
        } else {
            let names = split(rest.skip(1), 44).map_values(|seg: Seq<u8>| trim(seg));
            if forall|i: int| 0 <= i < names.len() ==> name_ok(#[trigger] names[i]) {
                Some(names)
            } else {
                Option::None
            }
        }
    } else {
        Option::None
    }
}

/// Whether a raw line is a metadata line: it starts with the marker `#~`.
pub open spec fn is_marker_line(l: Seq<u8>) -> bool {
    l.len() >= 2 && l[0] == 35 && l[1] == 126
}

/// Folds the metadata of a sequence of raw lines: the concatenation of the
/// names declared on marker lines, or `None` if any marker line is
/// malformed.
pub open spec fn deps_of_lines(ls: Seq<Seq<u8>>) -> Option<Seq<Seq<u8>>>
    decreases ls.len(),
{
    if ls.len() == 0 {
        Some(Seq::empty())
    } else {
        match deps_of_lines(ls.drop_last()) {
            Option::None => Option::None,
            Some(acc) => {
                let l = ls.last();
                if is_marker_line(l) {
                    match parse_meta_line(l.skip(2)) {
                        Option::None => Option::None,
                        Some(ns) => Some(acc + ns),
                    }
                } else {
                    Some(acc)
                }
            },
        }
    }
}

/// The declared dependency names of a whole file, line by line.
pub open spec fn spec_deps(bytes: Seq<u8>) -> Option<Seq<Seq<u8>>> {
    deps_of_lines(split(bytes, 10))
}

/// The first line of a file.
pub open spec fn first_line(bytes: Seq<u8>) -> Seq<u8> {
    bytes.take(seg_len(bytes, 10))
}

/// Relies on `str::from_utf8` from std: it accepts a byte slice exactly
/// when the bytes are valid UTF-8, which vstd's `valid_utf8` formalizes.
#[verifier::external_body]
fn utf8_check(bytes: &[u8]) -> (r: bool)
    ensures
        r == vstd::utf8::valid_utf8(bytes@),
{
    core::str::from_utf8(bytes).is_ok()
}

/// Finds the byte range that trimming blanks from both ends keeps.
#[verifier::loop_isolation(false)]
pub fn trim_bounds(s: &[u8]) -> (r: (usize, usize))
    ensures
        0 <= r.0 <= r.1 <= s@.len(),
        trim(s@) =~= s@.subrange(r.0 as int, r.1 as int),
{
    let mut lo: usize = 0;
    while lo < s.len() && (s[lo] == 32 || s[lo] == 9 || s[lo] == 13)
        invariant
            lo <= s@.len(),
            forall|k: int| 0 <= k < lo ==> is_blank(#[trigger] s@[k]),
        decreases s@.len() - lo,
    {
        lo = lo + 1;
    }
    let mut hi: usize = s.len();
    if lo == s.len() {
        proof {
            lemma_trim_front(s@, lo as int);
            assert(s@.skip(lo as int).len() == 0);
            assert(trim_back(s@.skip(lo as int)) =~= s@.skip(lo as int));
            assert(s@.subrange(lo as int, lo as int) =~= s@.skip(lo as int));
        }
        return (lo, lo);
    }
    while hi > lo && (s[hi - 1] == 32 || s[hi - 1] == 9 || s[hi - 1] == 13)
        invariant
            lo <= hi <= s@.len(),
            forall|k: int| hi <= k < s@.len() ==> is_blank(#[trigger] s@[k]),
        decreases hi,
    {
        hi = hi - 1;
    }
    proof {
        lemma_trim_front(s@, lo as int);
        let t = s@.skip(lo as int);
        assert(forall|k: int| hi - lo <= k < t.len() ==> t[k] == s@[k + lo] && is_blank(s@[k + lo]));
        assert(hi > lo ==> !is_blank(t[hi - lo - 1]));
        assert(hi == lo ==> !is_blank(s@[lo as int]));
        if hi == lo {
            assert(hi - lo <= 0 < t.len() && is_blank(t[0]) && !is_blank(s@[lo as int]) && t[0]
                == s@[lo as int]);
        }
        lemma_trim_back(t, hi - lo);
        assert(t.take(hi - lo) =~= s@.subrange(lo as int, hi as int));
    }
    (lo, hi)
}

/// Copies a byte range into an owned vector.
#[verifier::loop_isolation(false)]
pub fn copy_range(s: &[u8], lo: usize, hi: usize) -> (r: Vec<u8>)
    requires
        lo <= hi <= s@.len(),
    ensures
        r@ =~= s@.subrange(lo as int, hi as int),
{
    let mut r: Vec<u8> = Vec::new();
    let mut k: usize = lo;
    while k < hi
        invariant
            lo <= k <= hi <= s@.len(),
            r@.len() == k - lo,
            forall|t: int| 0 <= t < r@.len() ==> r@[t] == s@[lo + t],
        decreases hi - k,
    {
        r.push(s[k]);
        k = k + 1;
    }
    r
}

/// Splits a byte string at every occurrence of `sep`.
#[verifier::loop_isolation(false)]
pub fn split_bytes(s: &[u8], sep: u8) -> (r: Vec<Vec<u8>>)
    ensures
        r@.map_values(|v: Vec<u8>| v@) =~= split(s@, sep),
{
    let mut r: Vec<Vec<u8>> = Vec::new();
    let mut i: usize = 0;
    proof {
        assert(r@.map_values(|v: Vec<u8>| v@) =~= Seq::<Seq<u8>>::empty());
        assert(s@.skip(0) =~= s@);
    }
    loop
        invariant
            i <= s@.len(),
            split(s@, sep) =~= r@.map_values(|v: Vec<u8>| v@) + split(s@.skip(i as int), sep),
        decreases s@.len() - i,
    {
        let mut j: usize = i;
        while j < s.len() && s[j] != sep
            invariant
                i <= j <= s@.len(),
                forall|k: int| i <= k < j ==> s@[k] != sep,
            decreases s@.len() - j,
        {
            j = j + 1;
        }
        let seg: Vec<u8> = copy_range(s, i, j);
        proof {
            let rest = s@.skip(i as int);
            lemma_seg_len(rest, sep);
            assert(seg_len(rest, sep) == j - i) by {
                let jj = seg_len(rest, sep);
                if jj < j - i {
                    assert(rest[jj] == sep);
                    assert(s@[i + jj] == sep);
                } else if jj > j - i {
                    assert(j < s@.len());
                    assert(rest[j - i] == s@[j as int]);
                }
            }
            assert(rest.take(j - i) =~= s@.subrange(i as int, j as int));
        }
        let ghost pre_r = r@;
        r.push(seg);
        if j == s.len() {
            proof {
                let rest = s@.skip(i as int);
                assert(seg_len(rest, sep) == rest.len());
                assert(split(rest, sep) =~= seq![rest]);
                assert(rest =~= s@.subrange(i as int, j as int));
                assert(r@.map_values(|v: Vec<u8>| v@) =~= pre_r.map_values(|v: Vec<u8>| v@)
                    + seq![seg@]);
            }
            return r;
        }
        proof {
            let rest = s@.skip(i as int);
            assert(split(rest, sep) =~= seq![rest.take(j - i)] + split(rest.skip(j - i + 1), sep));
            assert(rest.skip(j - i + 1) =~= s@.skip(j + 1));
            assert(r@.map_values(|v: Vec<u8>| v@) =~= pre_r.map_values(|v: Vec<u8>| v@)
                + seq![seg@]);
        }
        i = j + 1;
    }
}

/// The field name `depends_on` as owned bytes.
fn depends_on_kw_vec() -> (r: Vec<u8>)
    ensures
        r@ =~= depends_on_kw(),
{
    let mut r: Vec<u8> = Vec::new();
    r.push(100);
    r.push(101);
    r.push(112);
    r.push(101);
    r.push(110);
    r.push(100);
    r.push(115);
    r.push(95);
    r.push(111);
    r.push(110);
    r
}

/// Parses one stripped metadata line into its declared names.
#[verifier::loop_isolation(false)]
fn parse_meta_line_exec(l: &[u8]) -> (r: Option<Vec<Vec<u8>>>)
    ensures
        match r {
            Some(names) => parse_meta_line(l@) == Some(
                names@.map_values(|v: Vec<u8>| v@),
            ),
            Option::None => parse_meta_line(l@) is None,
        },
{
    let (lo, hi) = trim_bounds(l);
    let ghost t = trim(l@);
    if hi == lo {
        proof {
            assert(parse_meta_line(l@) == Some(Seq::<Seq<u8>>::empty()));
        }
        return Some(Vec::new());
    }
    if hi - lo < 10 {
        return Option::None;
    }
    let kw: Vec<u8> = depends_on_kw_vec();
    let mut k: usize = 0;
    while k < 10
        invariant
            k <= 10,
            lo + 10 <= hi <= l@.len(),
            t =~= l@.subrange(lo as int, hi as int),
            forall|q: int| 0 <= q < k ==> t[q] == depends_on_kw()[q],
        decreases 10 - k,
    {
        if l[lo + k] != kw[k] {
            proof {
                assert(t[k as int] == l@[lo + k]);
                assert(kw@[k as int] == depends_on_kw()[k as int]);
                assert(t.take(10) != depends_on_kw()) by {
                    assert(t.take(10)[k as int] == t[k as int]);
                }
            }
            return Option::None;
        }
        proof {
            assert(t[k as int] == l@[lo + k]);
        }
        k = k + 1;
    }
    proof {
        assert(t.take(10) =~= depends_on_kw());
    }
    // skip blanks after the keyword, expect `=`
    let mut p: usize = lo + 10;
    while p < hi && (l[p] == 32 || l[p] == 9 || l[p] == 13)
        invariant
            lo + 10 <= p <= hi,
            t =~= l@.subrange(lo as int, hi as int),
            forall|q: int| 10 <= q < p - lo ==> is_blank(#[trigger] t[q]),
        decreases hi - p,
    {
        p = p + 1;
    }
    proof {
        let after = t.skip(10);
        assert(forall|q: int| 0 <= q < p - lo - 10 ==> after[q] == t[q + 10] && is_blank(t[q + 10]));
        if p < hi {
            assert(after[p - lo - 10] == t[p - lo] && t[p - lo] == l@[p as int]);
        }
        lemma_trim_front(after, p - lo - 10);
    }
    if p == hi {
        proof {
            assert(trim_front(t.skip(10)).len() == 0);
        }
        return Option::None;
    }
    if l[p] != 61 {
        proof {
            assert(trim_front(t.skip(10))[0] == l@[p as int]);
        }
        return Option::None;
    }
    proof {
        assert(trim_front(t.skip(10))[0] == 61);
        assert(trim_front(t.skip(10)).skip(1) =~= l@.subrange(p + 1, hi as int));
    }
    // the list: split the remainder on commas, trim each name
    let list: Vec<u8> = copy_range(l, p + 1, hi);
    let segs: Vec<Vec<u8>> = split_bytes(list.as_slice(), 44);
    let ghost spec_names = split(list@, 44).map_values(|seg: Seq<u8>| trim(seg));
    let mut names: Vec<Vec<u8>> = Vec::new();
    let mut q: usize = 0;
    while q < segs.len()
        invariant
            q <= segs@.len(),
            segs@.map_values(|v: Vec<u8>| v@) =~= split(list@, 44),
            spec_names == split(list@, 44).map_values(|seg: Seq<u8>| trim(seg)),
            names@.len() == q,
            forall|x: int| 0 <= x < q ==> (#[trigger] names@[x])@ == spec_names[x],
            forall|x: int| 0 <= x < q ==> name_ok(#[trigger] spec_names[x]),
        decreases segs@.len() - q,
    {
        let (slo, shi) = trim_bounds(segs[q].as_slice());
        if shi == slo {
            proof {
                assert(spec_names[q as int] == trim(segs@[q as int]@));
                assert(spec_names[q as int].len() == 0);
                assert(!name_ok(spec_names[q as int]));
            }
            return Option::None;
        }
        let name: Vec<u8> = copy_range(segs[q].as_slice(), slo, shi);
        proof {
            assert(name@ =~= trim(segs@[q as int]@));
            assert(spec_names[q as int] == trim(segs@[q as int]@));
        }
        let mut w: usize = 0;
        while w < name.len()
            invariant
                w <= name@.len(),
                forall|k: int|
                    0 <= k < w ==> (#[trigger] name@[k]) != 34 && name@[k] != 39 && name@[k] != 91
                        && name@[k] != 93,
            decreases name@.len() - w,
        {
            let b: u8 = name[w];
            if b == 34 || b == 39 || b == 91 || b == 93 {
                proof {
                    assert(!name_ok(name@));
                    assert(!name_ok(spec_names[q as int]));
                }
                return Option::None;
            }
            w = w + 1;
        }
        proof {
            assert(name_ok(name@));
        }
        names.push(name);
        q = q + 1;
    }
    proof {
        assert(names@.map_values(|v: Vec<u8>| v@) =~= spec_names);
        assert(parse_meta_line(l@) == Some(spec_names));
    }
    Some(names)
}

/// Parses a whole definition file.  Succeeds exactly on nonempty UTF-8 text
/// whose metadata lines are well-formed; the parsed record carries the given
/// name and path, the first line as directive, the declared dependency
/// names in order, and the content hash of the raw bytes (the tree hash
/// starts equal to it).
#[verifier::loop_isolation(false)]
pub fn parse_definition(name: Vec<u8>, path: Vec<u8>, bytes: &Vec<u8>) -> (r: Result<
    Definition,
    ParseErrorKind,
>)
    ensures
        r is Ok <==> bytes@.len() > 0 && vstd::utf8::valid_utf8(bytes@) && spec_deps(
            bytes@,
        ) is Some,
        r matches Ok(d) ==> {
            &&& d.name@ == name@
            &&& d.path@ == path@
            &&& d.bang@ == first_line(bytes@)
            &&& Some(d.depends_on@.map_values(|v: Vec<u8>| v@)) == spec_deps(bytes@)
            &&& d.content_hash == spec_content_hash(bytes@)
            &&& d.tree_hash == spec_content_hash(bytes@)
        },
        r matches Err(k) ==> (k == ParseErrorKind::EmptyFile <==> bytes@.len() == 0),
        r matches Err(k) ==> (k == ParseErrorKind::NotText <==> bytes@.len() > 0
            && !vstd::utf8::valid_utf8(bytes@)),
        r matches Err(k) ==> (k == ParseErrorKind::BadMetadata <==> bytes@.len() > 0
            && vstd::utf8::valid_utf8(bytes@) && spec_deps(bytes@) is None),
{
    if bytes.len() == 0 {
        return Err(ParseErrorKind::EmptyFile);
    }
    if !utf8_check(bytes.as_slice()) {
        return Err(ParseErrorKind::NotText);
    }
    let lines: Vec<Vec<u8>> = split_bytes(bytes.as_slice(), 10);
    let ghost lsv = lines@.map_values(|v: Vec<u8>| v@);
    let mut deps: Vec<Vec<u8>> = Vec::new();
    let mut i: usize = 0;
    proof {
        assert(lsv.take(0) =~= Seq::<Seq<u8>>::empty());
    }
    while i < lines.len()
        invariant
            i <= lines@.len(),
            lsv == lines@.map_values(|v: Vec<u8>| v@),
            deps_of_lines(lsv.take(i as int)) == Some(deps@.map_values(|v: Vec<u8>| v@)),
        decreases lines@.len() - i,
    {
        let line: &Vec<u8> = &lines[i];
        proof {
            assert(lsv.take(i + 1).drop_last() =~= lsv.take(i as int));
            assert(lsv.take(i + 1).last() == lsv[i as int]);
            assert(lsv[i as int] == line@);
        }
        if line.len() >= 2 && line[0] == 35 && line[1] == 126 {
            proof {
                assert(is_marker_line(lsv[i as int]));
            }
            let stripped: Vec<u8> = copy_range(line.as_slice(), 2, line.len());
            proof {
                assert(stripped@ =~= lsv[i as int].skip(2));
            }
            match parse_meta_line_exec(stripped.as_slice()) {
                Option::None => {
                    proof {
                        assert(deps_of_lines(lsv.take(i + 1)) is None);
                        lemma_deps_prefix_none(lsv, i + 1);
                    }
                    return Err(ParseErrorKind::BadMetadata);
                },
                Some(ns) => {
                    let ghost pre_deps = deps@.map_values(|v: Vec<u8>| v@);
                    let ghost orig_ns = ns@.map_values(|v: Vec<u8>| v@);
                    let mut ns2: Vec<Vec<u8>> = ns;
                    proof {
                        assert(orig_ns.take(0) =~= Seq::<Seq<u8>>::empty());
                        assert(pre_deps + orig_ns.take(0) =~= pre_deps);
                        assert(orig_ns.skip(0) =~= ns2@.map_values(|v: Vec<u8>| v@));
                    }
                    while ns2.len() > 0
                        invariant
                            ns2@.len() <= orig_ns.len(),
                            deps@.map_values(|v: Vec<u8>| v@) =~= pre_deps + orig_ns.take(
                                orig_ns.len() - ns2@.len(),
                            ),
                            orig_ns.skip(orig_ns.len() - ns2@.len()) =~= ns2@.map_values(
                                |v: Vec<u8>| v@,
                            ),
                        decreases ns2@.len(),
                    {
                        let ghost done = orig_ns.len() - ns2@.len();
                        let ghost pre_ns2 = ns2@;
                        let ghost pre_d = deps@;
                        let v: Vec<u8> = ns2.remove(0);
                        deps.push(v);
                        proof {
                            assert(ns2@ =~= pre_ns2.drop_first());
                            assert(v == pre_ns2[0]);
                            assert(v@ == orig_ns[done]) by {
                                assert(orig_ns.skip(done)[0] == orig_ns[done]);
                                assert(pre_ns2.map_values(|v2: Vec<u8>| v2@)[0] == v@);
                            }
                            assert(deps@.map_values(|v2: Vec<u8>| v2@) =~= pre_d.map_values(
                                |v2: Vec<u8>| v2@,
                            ).push(v@));
                            assert(pre_deps + orig_ns.take(done + 1) =~= (pre_deps + orig_ns.take(
                                done,
                            )).push(orig_ns[done]));
                            assert(ns2@.map_values(|v2: Vec<u8>| v2@) =~= pre_ns2.map_values(
                                |v2: Vec<u8>| v2@,
                            ).drop_first());
                            assert(orig_ns.skip(done + 1) =~= orig_ns.skip(done).drop_first());
                        }
                    }
                    proof {
                        assert(orig_ns.take(orig_ns.len() as int) =~= orig_ns);
                        assert(deps@.map_values(|v: Vec<u8>| v@) =~= pre_deps + orig_ns);
                    }
                },
            }
        } else {
            proof {
                assert(!is_marker_line(lsv[i as int]));
            }
        }
        i = i + 1;
    }
    let bang_len: usize = first_line_len(bytes.as_slice());
    proof {
        lemma_seg_len(bytes@, 10);
    }
    let bang: Vec<u8> = copy_range(bytes.as_slice(), 0, bang_len);
    let h: u64 = content_hash(bytes);
    proof {
        assert(lsv.take(lines@.len() as int) =~= lsv);
    }
    Ok(
        Definition {
            name,
            path,
            bang,
            depends_on: deps,
            content_hash: h,
            tree_hash: h,
        },
    )
}

/// If a prefix of the lines already fails, the whole file fails.
proof fn lemma_deps_prefix_none(ls: Seq<Seq<u8>>, i: int)
    requires
        0 <= i <= ls.len(),
        deps_of_lines(ls.take(i)) is None,
    ensures
        deps_of_lines(ls) is None,
    decreases ls.len() - i,
{
    if i < ls.len() {
        assert(ls.take(i + 1).drop_last() =~= ls.take(i));
        assert(deps_of_lines(ls.take(i + 1)) is None);
        lemma_deps_prefix_none(ls, i + 1);
    } else {
        assert(ls.take(i) =~= ls);
    }
}

/// Length of the first line of a byte string.
#[verifier::loop_isolation(false)]
fn first_line_len(s: &[u8]) -> (r: usize)
    ensures
        r == seg_len(s@, 10),
{
    let mut j: usize = 0;
    while j < s.len() && s[j] != 10
        invariant
            j <= s@.len(),
            forall|k: int| 0 <= k < j ==> s@[k] != 10,
        decreases s@.len() - j,
    {
        j = j + 1;
    }
    proof {
        lemma_seg_len(s@, 10);
        let jj = seg_len(s@, 10);
        if jj < j {
            assert(s@[jj] == 10);
        } else if jj > j {
            assert(j < s@.len());
        }
    }
    j
}

} // verus!

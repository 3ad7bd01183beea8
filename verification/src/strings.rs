//! Verified helpers over strings: comparison, searching, splitting into
//! lines, and small concatenations. All contracts are stated over the
//! `Seq<char>` views of `&str` and `String`.

use vstd::prelude::*;
use vstd::string::StringExecFns;
use vstd::string::StrSliceExecFns;

verus! {

/// `pre` is an initial segment of `s`.
pub open spec fn is_prefix_of(pre: Seq<char>, s: Seq<char>) -> bool {
    pre.len() <= s.len() && s.take(pre.len() as int) == pre
}

/// `suf` is a final segment of `s`.
pub open spec fn is_suffix_of(suf: Seq<char>, s: Seq<char>) -> bool {
    suf.len() <= s.len() && s.skip(s.len() - suf.len()) == suf
}

/// The index of the first occurrence of `c` in `s`, if any.
pub open spec fn find_char(s: Seq<char>, c: char) -> Option<int>
    decreases s.len(),
{
    if s.len() == 0 {
        None
    } else if s[0] == c {
        Some(0int)
    } else {
        match find_char(s.skip(1), c) {
            None => None,
            Some(i) => Some(i + 1),
        }
    }
}

/// The index of the last occurrence of `c` in `s`, if any.
pub open spec fn rfind_char(s: Seq<char>, c: char) -> Option<int>
    decreases s.len(),
{
    if s.len() == 0 {
        None
    } else if s[s.len() - 1] == c {
        Some(s.len() - 1)
    } else {
        rfind_char(s.drop_last(), c)
    }
}

/// What `find_char` returns is the first occurrence.
pub proof fn lemma_find_char(s: Seq<char>, c: char)
    ensures
        match find_char(s, c) {
            Some(i) => 0 <= i < s.len() && s[i] == c && (forall|j: int|
                0 <= j < i ==> s[j] != c),
            None => forall|j: int| 0 <= j < s.len() ==> s[j] != c,
        },
    decreases s.len(),
{
    if s.len() != 0 && s[0] != c {
        lemma_find_char(s.skip(1), c);
        match find_char(s.skip(1), c) {
            Some(i) => {
                assert(s.skip(1)[i] == s[i + 1]);
                assert forall|j: int| 0 <= j < i + 1 implies s[j] != c by {
                    if j >= 1 {
                        assert(s.skip(1)[j - 1] == s[j]);
                    }
                }
            },
            None => {
                assert forall|j: int| 0 <= j < s.len() implies s[j] != c by {
                    if j >= 1 {
                        assert(s.skip(1)[j - 1] == s[j]);
                    }
                }
            },
        }
    }
}

/// What `rfind_char` returns is the last occurrence.
pub proof fn lemma_rfind_char(s: Seq<char>, c: char)
    ensures
        match rfind_char(s, c) {
            Some(i) => 0 <= i < s.len() && s[i] == c && (forall|j: int|
                i < j < s.len() ==> s[j] != c),
            None => forall|j: int| 0 <= j < s.len() ==> s[j] != c,
        },
    decreases s.len(),
{
    if s.len() != 0 && s[s.len() - 1] != c {
        lemma_rfind_char(s.drop_last(), c);
        assert(forall|j: int| 0 <= j < s.len() - 1 ==> s.drop_last()[j] == s[j]);
    }
}

/// `s` holds `c` somewhere.
pub open spec fn has_char(s: Seq<char>, c: char) -> bool {
    exists|i: int| 0 <= i < s.len() && s[i] == c
}

/// Whether two string slices have equal contents.
pub fn str_eq(a: &str, b: &str) -> (r: bool)
    ensures
        r == (a@ == b@),
{
    let alen = a.unicode_len();
    let blen = b.unicode_len();
    if alen != blen {
        return false;
    }
    let mut i: usize = 0;
    while i < alen
        invariant
            alen == a@.len(),
            alen == b@.len(),
            i <= alen,
            forall|j: int| 0 <= j < i ==> a@[j] == b@[j],
        decreases alen - i,
    {
        if a.get_char(i) != b.get_char(i) {
            return false;
        }
        i += 1;
    }
    proof {
        assert(a@ =~= b@);
    }
    true
}

/// Whether `s` begins with `pre`.
pub fn str_starts_with(s: &str, pre: &str) -> (r: bool)
    ensures
        r == is_prefix_of(pre@, s@),
{
    let slen = s.unicode_len();
    let plen = pre.unicode_len();
    if plen > slen {
        return false;
    }
    let mut i: usize = 0;
    while i < plen
        invariant
            slen == s@.len(),
            plen == pre@.len(),
            plen <= slen,
            i <= plen,
            forall|j: int| 0 <= j < i ==> s@[j] == pre@[j],
        decreases plen - i,
    {
        if s.get_char(i) != pre.get_char(i) {
            proof {
                assert(s@.take(plen as int)[i as int] != pre@[i as int]);
            }
            return false;
        }
        i += 1;
    }
    proof {
        assert(s@.take(plen as int) =~= pre@);
    }
    true
}

/// Whether `s` ends with `suf`.
pub fn str_ends_with(s: &str, suf: &str) -> (r: bool)
    ensures
        r == is_suffix_of(suf@, s@),
{
    let slen = s.unicode_len();
    let flen = suf.unicode_len();
    if flen > slen {
        return false;
    }
    let off = slen - flen;
    let mut i: usize = 0;
    while i < flen
        invariant
            slen == s@.len(),
            flen == suf@.len(),
            off == slen - flen,
            i <= flen,
            forall|j: int| 0 <= j < i ==> s@[off + j] == suf@[j],
        decreases flen - i,
    {
        if s.get_char(off + i) != suf.get_char(i) {
            proof {
                assert(s@.skip(off as int)[i as int] != suf@[i as int]);
            }
            return false;
        }
        i += 1;
    }
    proof {
        assert(s@.skip(off as int) =~= suf@);
    }
    true
}

/// The first occurrence of `c` at or after `start`, scanning `s`.
pub fn find_char_from(s: &str, start: usize, c: char) -> (r: Option<usize>)
    requires
        start <= s@.len(),
    ensures
        match r {
            Some(k) => start <= k < s@.len() && s@[k as int] == c && (forall|j: int|
                start <= j < k ==> s@[j] != c),
            None => forall|j: int| start <= j < s@.len() ==> s@[j] != c,
        },
{
    let len = s.unicode_len();
    let mut i: usize = start;
    while i < len
        invariant
            len == s@.len(),
            start <= i <= len,
            forall|j: int| start <= j < i ==> s@[j] != c,
        decreases len - i,
    {
        if s.get_char(i) == c {
            return Some(i);
        }
        i += 1;
    }
    None
}

/// The last occurrence of `c` in `s`.
pub fn rfind_char_exec(s: &str, c: char) -> (r: Option<usize>)
    ensures
        match rfind_char(s@, c) {
            Some(i) => r == Some(i as usize),
            None => r is None,
        },
{
    let len = s.unicode_len();
    let mut i: usize = len;
    while i > 0
        invariant
            len == s@.len(),
            i <= len,
            forall|j: int| i <= j < len ==> s@[j] != c,
        decreases i,
    {
        i -= 1;
        if s.get_char(i) == c {
            proof {
                lemma_rfind_char(s@, c);
                match rfind_char(s@, c) {
                    Some(k) => {
                        if k < i {
                            assert(s@[i as int] == c);
                        }
                        if k > i {
                            assert(s@[k] != c);
                        }
                    },
                    None => {
                        assert(s@[i as int] == c);
                    },
                }
            }
            return Some(i);
        }
    }
    proof {
        lemma_rfind_char(s@, c);
        match rfind_char(s@, c) {
            Some(k) => {
                assert(s@[k] != c);
            },
            None => {},
        }
    }
    None
}

/// Whether `s` holds `c` anywhere.
pub fn str_has_char(s: &str, c: char) -> (r: bool)
    ensures
        r == has_char(s@, c),
{
    match find_char_from(s, 0, c) {
        Some(k) => {
            proof {
                assert(s@[k as int] == c);
            }
            true
        },
        None => false,
    }
}

/// Strict lexicographic order on character sequences, by code point.
pub open spec fn str_lt_spec(a: Seq<char>, b: Seq<char>) -> bool
    decreases a.len(),
{
    if b.len() == 0 {
        false
    } else if a.len() == 0 {
        true
    } else if a[0] == b[0] {
        str_lt_spec(a.skip(1), b.skip(1))
    } else {
        a[0] < b[0]
    }
}

/// Reflexive lexicographic order on character sequences.
pub open spec fn str_le_spec(a: Seq<char>, b: Seq<char>) -> bool {
    a == b || str_lt_spec(a, b)
}

/// Whether `a` comes strictly before `b` in lexicographic order.
pub fn str_lt(a: &str, b: &str) -> (r: bool)
    ensures
        r == str_lt_spec(a@, b@),
{
    let r = str_lt_from(a, b, 0);
    proof {
        assert(a@.skip(0) =~= a@);
        assert(b@.skip(0) =~= b@);
    }
    r
}

fn str_lt_from(a: &str, b: &str, start: usize) -> (r: bool)
    requires
        start <= a@.len(),
        start <= b@.len(),
    ensures
        r == str_lt_spec(a@.skip(start as int), b@.skip(start as int)),
    decreases a@.len() - start,
{
    let alen = a.unicode_len();
    let blen = b.unicode_len();
    if start == blen {
        false
    } else if start == alen {
        true
    } else {
        let ca = a.get_char(start);
        let cb = b.get_char(start);
        proof {
            assert(a@.skip(start as int)[0] == a@[start as int]);
            assert(b@.skip(start as int)[0] == b@[start as int]);
        }
        if ca == cb {
            let r = str_lt_from(a, b, start + 1);
            proof {
                assert(a@.skip(start as int).skip(1) =~= a@.skip(start + 1));
                assert(b@.skip(start as int).skip(1) =~= b@.skip(start + 1));
            }
            r
        } else {
            ca < cb
        }
    }
}

/// The concatenation of three string slices.
pub fn concat3(a: &str, b: &str, c: &str) -> (r: String)
    ensures
        r@ == a@ + b@ + c@,
{
    let mut r = a.to_owned();
    r.append(b);
    r.append(c);
    r
}

/// The concatenation of two string slices.
pub fn concat2(a: &str, b: &str) -> (r: String)
    ensures
        r@ == a@ + b@,
{
    let mut r = a.to_owned();
    r.append(b);
    r
}

/// ASCII whitespace, as the trimming of metadata texts understands it.
pub open spec fn is_space_char(c: char) -> bool {
    c == ' ' || c == '\t' || c == '\r' || c == '\n' || c == '\x0b' || c == '\x0c'
}

/// Whether `c` is ASCII whitespace.
pub fn is_space(c: char) -> (r: bool)
    ensures
        r == is_space_char(c),
{
    c == ' ' || c == '\t' || c == '\r' || c == '\n' || c == '\x0b' || c == '\x0c'
}

/// A character that may stand in a tag or identifier: a letter, a digit or
/// an underscore.
pub open spec fn is_word_char(c: char) -> bool {
    ('a' <= c && c <= 'z') || ('A' <= c && c <= 'Z') || ('0' <= c && c <= '9') || c == '_'
}

/// Whether `c` may stand in a tag or identifier.
pub fn is_word(c: char) -> (r: bool)
    ensures
        r == is_word_char(c),
{
    ('a' <= c && c <= 'z') || ('A' <= c && c <= 'Z') || ('0' <= c && c <= '9') || c == '_'
}

/// `s` with its leading whitespace removed.
pub open spec fn skip_ws(s: Seq<char>) -> Seq<char>
    decreases s.len(),
{
    if s.len() > 0 && is_space_char(s[0]) {
        skip_ws(s.skip(1))
    } else {
        s
    }
}

/// `s` with its trailing whitespace removed.
pub open spec fn trim_back(s: Seq<char>) -> Seq<char>
    decreases s.len(),
{
    if s.len() > 0 && is_space_char(s[s.len() - 1]) {
        trim_back(s.drop_last())
    } else {
        s
    }
}

/// `s` with whitespace removed from both ends.
pub open spec fn trim_spec(s: Seq<char>) -> Seq<char> {
    trim_back(skip_ws(s))
}

/// Scans past whitespace from `start`, returning where it ends.
pub fn scan_ws(s: &str, start: usize) -> (r: usize)
    requires
        start <= s@.len(),
    ensures
        start <= r <= s@.len(),
        skip_ws(s@.skip(start as int)) == s@.skip(r as int),
{
    let len = s.unicode_len();
    let mut i: usize = start;
    while i < len
        invariant
            len == s@.len(),
            start <= i <= len,
            skip_ws(s@.skip(start as int)) == skip_ws(s@.skip(i as int)),
        decreases len - i,
    {
        if !is_space(s.get_char(i)) {
            proof {
                assert(s@.skip(i as int)[0] == s@[i as int]);
            }
            return i;
        }
        proof {
            assert(s@.skip(i as int)[0] == s@[i as int]);
            assert(s@.skip(i as int).skip(1) =~= s@.skip(i + 1));
        }
        i += 1;
    }
    proof {
        assert(s@.skip(i as int) =~= Seq::<char>::empty());
    }
    i
}

/// Removes ASCII whitespace from both ends of `s`.
pub fn trim(s: &str) -> (r: String)
    ensures
        r@ == trim_spec(s@),
{
    let len = s.unicode_len();
    proof {
        assert(s@.skip(0) =~= s@);
    }
    let i = scan_ws(s, 0);
    let mut j: usize = len;
    proof {
        assert(s@.subrange(i as int, j as int) =~= s@.skip(i as int));
    }
    while j > i && is_space(s.get_char(j - 1))
        invariant
            len == s@.len(),
            i <= j <= len,
            skip_ws(s@) == s@.skip(i as int),
            trim_back(s@.skip(i as int)) == trim_back(s@.subrange(i as int, j as int)),
        decreases j,
    {
        proof {
            let seg = s@.subrange(i as int, j as int);
            assert(seg[seg.len() - 1] == s@[j - 1]);
            assert(seg.drop_last() =~= s@.subrange(i as int, j - 1));
        }
        j -= 1;
    }
    proof {
        let seg = s@.subrange(i as int, j as int);
        if j > i {
            assert(seg[seg.len() - 1] == s@[j - 1]);
        }
        assert(trim_back(seg) == seg);
    }
    s.substring_char(i, j).to_owned()
}

/// Whether some member of `v` equals `x`.
pub fn vec_contains_str(v: &Vec<String>, x: &str) -> (r: bool)
    ensures
        r == v.deep_view().contains(x@),
{
    let mut i: usize = 0;
    while i < v.len()
        invariant
            i <= v@.len(),
            forall|j: int| 0 <= j < i ==> v.deep_view()[j] != x@,
        decreases v@.len() - i,
    {
        if str_eq(v[i].as_str(), x) {
            proof {
                assert(v.deep_view()[i as int] == x@);
            }
            return true;
        }
        proof {
            assert(v.deep_view()[i as int] == v@[i as int]@);
        }
        i += 1;
    }
    proof {
        if v.deep_view().contains(x@) {
            let j = choose|j: int| 0 <= j < v.deep_view().len() && v.deep_view()[j] == x@;
            assert(v.deep_view()[j] != x@);
        }
    }
    false
}

/// A line with a final carriage return removed.
pub open spec fn chop_cr(s: Seq<char>) -> Seq<char> {
    if s.len() > 0 && s[s.len() - 1] == '\r' {
        s.drop_last()
    } else {
        s
    }
}

/// The lines of `s`: pieces separated by newline characters, each with a
/// final carriage return removed, a trailing final newline producing no
/// empty last line.
pub open spec fn split_lines_spec(s: Seq<char>) -> Seq<Seq<char>>
    decreases s.len(),
{
    if s.len() == 0 {
        seq![]
    } else {
        match find_char(s, '\n') {
            None => seq![s],
            Some(i) => if 0 <= i < s.len() {
                seq![chop_cr(s.take(i))] + split_lines_spec(s.skip(i + 1))
            } else {
                seq![]
            },
        }
    }
}

/// Splits `s` into its lines.
pub fn split_lines(s: &str) -> (r: Vec<String>)
    ensures
        r.deep_view() == split_lines_spec(s@),
{
    let len = s.unicode_len();
    let mut r: Vec<String> = Vec::new();
    let mut p: usize = 0;
    proof {
        assert(s@.skip(0) =~= s@);
        assert(r.deep_view() =~= Seq::<Seq<char>>::empty());
        assert(r.deep_view() + split_lines_spec(s@.skip(0)) =~= split_lines_spec(s@));
    }
    while p < len
        invariant
            len == s@.len(),
            p <= len,
            split_lines_spec(s@) == r.deep_view() + split_lines_spec(s@.skip(p as int)),
        decreases len - p,
    {
        let ghost pre = r.deep_view();
        let ghost suffix = s@.skip(p as int);
        match find_char_from(s, p, '\n') {
            Some(q) => {
                proof {
                    lemma_find_char(suffix, '\n');
                    assert(forall|j: int| 0 <= j < suffix.len() ==> suffix[j] == s@[p + j]);
                    assert(suffix[q - p] == '\n');
                    match find_char(suffix, '\n') {
                        Some(k) => {
                            if k < q - p {
                                assert(s@[p + k] == '\n');
                            }
                            if k > q - p {
                                assert(suffix[q - p] != '\n');
                            }
                            assert(k == q - p);
                        },
                        None => {
                            assert(suffix[q - p] != '\n');
                        },
                    }
                }
                let line_end = if q > p && s.get_char(q - 1) == '\r' {
                    q - 1
                } else {
                    q
                };
                let line = s.substring_char(p, line_end);
                proof {
                    assert(suffix.take(q - p) =~= s@.subrange(p as int, q as int));
                    assert(chop_cr(suffix.take(q - p)) =~= s@.subrange(
                        p as int,
                        line_end as int,
                    ));
                    assert(suffix.skip(q - p + 1) =~= s@.skip(q + 1));
                }
                r.push(line.to_owned());
                proof {
                    assert(r.deep_view() =~= pre.push(s@.subrange(p as int, line_end as int)));
                    assert(pre + split_lines_spec(suffix) =~= r.deep_view()
                        + split_lines_spec(s@.skip(q + 1)));
                }
                p = q + 1;
            },
            None => {
                proof {
                    lemma_find_char(suffix, '\n');
                    assert(forall|j: int| 0 <= j < suffix.len() ==> suffix[j] == s@[p + j]);
                    match find_char(suffix, '\n') {
                        Some(k) => {
                            assert(s@[p + k] == '\n');
                        },
                        None => {},
                    }
                    assert(suffix.len() > 0);
                }
                let line = s.substring_char(p, len);
                proof {
                    assert(suffix =~= s@.subrange(p as int, len as int));
                }
                r.push(line.to_owned());
                proof {
                    assert(r.deep_view() =~= pre.push(suffix));
                    assert(pre + split_lines_spec(suffix) =~= r.deep_view()
                        + split_lines_spec(s@.skip(len as int)));
                }
                p = len;
            },
        }
    }
    proof {
        assert(s@.skip(p as int) =~= Seq::<char>::empty());
        assert(r.deep_view() + split_lines_spec(s@.skip(p as int)) =~= r.deep_view());
    }
    r
}

} // verus!

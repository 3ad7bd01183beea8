//! The rule-set loader: turns rule-source texts into ordered keep and delete
//! patterns, honouring architecture-conditional blocks.
//!
//! A rule source is plain text, one rule per line. Blank lines and lines
//! beginning with `#` are dropped. A line of the form `<tag>` opens an
//! architecture block: the lines after it are kept only when `tag` equals the
//! current architecture; a line of the form `</tag>` closes any open block.
//! Blocks do not nest: a new open tag simply resets the tracking, and any end
//! tag clears it. Of the remaining lines, those beginning with `-` are delete
//! rules (the pattern is the remainder), all others are keep rules.

use vstd::prelude::*;
use vstd::string::StrSliceExecFns;
use vstd::string::StringExecFns;

use crate::error::JanitorError;
use crate::strings::is_word_char;
use crate::strings::is_word;
use crate::strings::scan_ws;
use crate::strings::skip_ws;
use crate::strings::split_lines;
use crate::strings::split_lines_spec;
use crate::strings::str_eq;

verus! {

// ---------------------------------------------------------------------------
// What the regex crate is relied on for.
// ---------------------------------------------------------------------------
/// Whether the regex crate accepts `pat` as a regular expression.
pub uninterp spec fn regex_valid(pat: Seq<char>) -> bool;

/// Whether the regular expression `pat` matches somewhere inside `text`.
pub uninterp spec fn regex_matches(pat: Seq<char>, text: Seq<char>) -> bool;

/// Relies on regex::Regex::new: whether a pattern compiles depends on the
/// pattern text alone, and on failure the error value describes it.
#[verifier::external_body]
fn regex_compile_check(pattern: &str) -> (r: Result<(), String>)
    ensures
        r is Ok <==> regex_valid(pattern@),
{
    match regex::Regex::new(pattern) {
        Ok(_) => Ok(()),
        Err(e) => Err(e.to_string()),
    }
}

/// Relies on regex::Regex::is_match: whether a pattern matches a text is a
/// function of the pattern and the text alone.
#[verifier::external_body]
pub(crate) fn regex_is_match(pattern: &str, text: &str) -> (r: bool)
    requires
        regex_valid(pattern@),
    ensures
        r == regex_matches(pattern@, text@),
{
    regex::Regex::new(pattern).unwrap().is_match(text)
}

// ---------------------------------------------------------------------------
// The architecture-tag grammar.
// ---------------------------------------------------------------------------
/// The length of the run of word characters at the front of `s`.
pub open spec fn word_len(s: Seq<char>) -> int
    decreases s.len(),
{
    if s.len() > 0 && is_word_char(s[0]) {
        1 + word_len(s.skip(1))
    } else {
        0
    }
}

pub proof fn lemma_word_len_bounds(s: Seq<char>)
    ensures
        0 <= word_len(s) <= s.len(),
    decreases s.len(),
{
    if s.len() > 0 && is_word_char(s[0]) {
        lemma_word_len_bounds(s.skip(1));
    }
}

/// The tag of a block-opening line `<tag>`, whitespace allowed around the
/// brackets, or nothing if the line has another shape.
pub open spec fn open_tag_of(s: Seq<char>) -> Option<Seq<char>> {
    let t0 = skip_ws(s);
    if t0.len() > 0 && t0[0] == '<' {
        let t1 = t0.skip(1);
        let w = word_len(t1);
        if w > 0 {
            let t2 = skip_ws(t1.skip(w));
            if t2.len() > 0 && t2[0] == '>' && skip_ws(t2.skip(1)).len() == 0 {
                Some(t1.take(w))
            } else {
                None
            }
        } else {
            None
        }
    } else {
        None
    }
}

/// Whether the line closes a block: `</tag>`, any tag name accepted.
pub open spec fn is_end_tag(s: Seq<char>) -> bool {
    let t0 = skip_ws(s);
    t0.len() >= 2 && t0[0] == '<' && t0[1] == '/' && {
        let t1 = t0.skip(2);
        let w = word_len(t1);
        w > 0 && {
            let t2 = skip_ws(t1.skip(w));
            t2.len() > 0 && t2[0] == '>' && skip_ws(t2.skip(1)).len() == 0
        }
    }
}

/// Scans past word characters from `start`, returning where the run ends.
fn scan_word(s: &str, start: usize) -> (r: usize)
    requires
        start <= s@.len(),
    ensures
        start <= r <= s@.len(),
        word_len(s@.skip(start as int)) == r - start,
{
    let len = s.unicode_len();
    let mut i: usize = start;
    while i < len
        invariant
            len == s@.len(),
            start <= i <= len,
            word_len(s@.skip(start as int)) == (i - start) + word_len(s@.skip(i as int)),
        decreases len - i,
    {
        if !is_word(s.get_char(i)) {
            proof {
                assert(s@.skip(i as int)[0] == s@[i as int]);
            }
            return i;
        }
        proof {
            assert(s@.skip(i as int)[0] == s@[i as int]);
            assert(s@.skip(i as int).skip(1) =~= s@.skip(i + 1));
        }
        i += 1;
    }
    proof {
        assert(s@.skip(i as int) =~= Seq::<char>::empty());
    }
    i
}

/// Parses a block-opening line, returning its tag.
pub fn parse_open_tag(s: &str) -> (r: Option<String>)
    ensures
        match r {
            Some(t) => open_tag_of(s@) == Some(t@),
            None => open_tag_of(s@) is None,
        },
{
    let len = s.unicode_len();
    proof {
        assert(s@.skip(0) =~= s@);
    }
    let i = scan_ws(s, 0);
    if i == len || s.get_char(i) != '<' {
        proof {
            if i < len {
                assert(s@.skip(i as int)[0] == s@[i as int]);
            }
        }
        return None;
    }
    proof {
        assert(s@.skip(i as int)[0] == s@[i as int]);
        assert(s@.skip(i as int).skip(1) =~= s@.skip(i + 1));
    }
    let j = scan_word(s, i + 1);
    if j == i + 1 {
        return None;
    }
    let ghost t1 = s@.skip(i + 1);
    proof {
        lemma_word_len_bounds(t1);
        assert(t1.skip(word_len(t1)) =~= s@.skip(j as int));
    }
    let k = scan_ws(s, j);
    if k == len || s.get_char(k) != '>' {
        proof {
            if k < len {
                assert(s@.skip(k as int)[0] == s@[k as int]);
            }
        }
        return None;
    }
    proof {
        assert(s@.skip(k as int)[0] == s@[k as int]);
        assert(s@.skip(k as int).skip(1) =~= s@.skip(k + 1));
    }
    let e = scan_ws(s, k + 1);
    if e != len {
        return None;
    }
    let tag = s.substring_char(i + 1, j).to_owned();
    proof {
        assert(t1.take(word_len(t1)) =~= s@.subrange(i + 1, j as int));
    }
    Some(tag)
}

/// Recognizes a block-closing line.
pub fn parse_end_tag(s: &str) -> (r: bool)
    ensures
        r == is_end_tag(s@),
{
    let len = s.unicode_len();
    proof {
        assert(s@.skip(0) =~= s@);
    }
    let i = scan_ws(s, 0);
    if len - i < 2 || s.get_char(i) != '<' || s.get_char(i + 1) != '/' {
        proof {
            let t0 = s@.skip(i as int);
            if i < len {
                assert(t0[0] == s@[i as int]);
            }
            if i + 1 < len {
                assert(t0[1] == s@[i + 1]);
            }
        }
        return false;
    }
    proof {
        let t0 = s@.skip(i as int);
        assert(t0[0] == s@[i as int]);
        assert(t0[1] == s@[i + 1]);
        assert(t0.skip(2) =~= s@.skip(i + 2));
    }
    let j = scan_word(s, i + 2);
    if j == i + 2 {
        return false;
    }
    let ghost t1 = s@.skip(i + 2);
    proof {
        lemma_word_len_bounds(t1);
        assert(t1.skip(word_len(t1)) =~= s@.skip(j as int));
    }
    let k = scan_ws(s, j);
    if k == len || s.get_char(k) != '>' {
        proof {
            if k < len {
                assert(s@.skip(k as int)[0] == s@[k as int]);
            }
        }
        return false;
    }
    proof {
        assert(s@.skip(k as int)[0] == s@[k as int]);
        assert(s@.skip(k as int).skip(1) =~= s@.skip(k + 1));
    }
    let e = scan_ws(s, k + 1);
    e == len
}

// ---------------------------------------------------------------------------
// Architecture filtering.
// ---------------------------------------------------------------------------
/// The lines that survive architecture filtering, processed in order with the
/// given skip state. An open tag starts skipping unless its tag equals the
/// architecture, an end tag always stops skipping, and other lines are kept
/// when not skipping.
pub open spec fn arch_filter_spec(lines: Seq<Seq<char>>, arch: Seq<char>, skipping: bool) -> Seq<
    Seq<char>,
>
    decreases lines.len(),
{
    if lines.len() == 0 {
        seq![]
    } else {
        let l = lines[0];
        let rest = lines.skip(1);
        match open_tag_of(l) {
            Some(tag) => arch_filter_spec(rest, arch, tag != arch),
            None => if is_end_tag(l) {
                arch_filter_spec(rest, arch, false)
            } else if skipping {
                arch_filter_spec(rest, arch, true)
            } else {
                seq![l] + arch_filter_spec(rest, arch, false)
            },
        }
    }
}

/// Filters rule lines by the current architecture: lines inside a `<tag>`
/// block survive only when `tag` equals `arch`; lines outside any block
/// always survive.
pub fn arch_filter(lines: Vec<String>, arch: &str) -> (r: Vec<String>)
    ensures
        r.deep_view() == arch_filter_spec(lines.deep_view(), arch@, false),
{
    let ghost dv = lines.deep_view();
    let mut r: Vec<String> = Vec::new();
    let mut skipping = false;
    let mut i: usize = 0;
    proof {
        assert(dv.skip(0) =~= dv);
        assert(r.deep_view() =~= Seq::<Seq<char>>::empty());
        assert(r.deep_view() + arch_filter_spec(dv.skip(0), arch@, false) =~= arch_filter_spec(
            dv,
            arch@,
            false,
        ));
    }
    while i < lines.len()
        invariant
            dv == lines.deep_view(),
            i <= lines@.len(),
            arch_filter_spec(dv, arch@, false) == r.deep_view() + arch_filter_spec(
                dv.skip(i as int),
                arch@,
                skipping,
            ),
        decreases lines@.len() - i,
    {
        let ghost pre = r.deep_view();
        let line = &lines[i];
        proof {
            assert(dv.skip(i as int)[0] == dv[i as int]);
            assert(dv.skip(i as int).skip(1) =~= dv.skip(i + 1));
        }
        match parse_open_tag(line.as_str()) {
            Some(tag) => {
                skipping = !str_eq(tag.as_str(), arch);
            },
            None => {
                if parse_end_tag(line.as_str()) {
                    skipping = false;
                } else if !skipping {
                    r.push(line.clone());
                    proof {
                        assert(r.deep_view() =~= pre.push(dv[i as int]));
                        assert(pre + (seq![dv[i as int]] + arch_filter_spec(
                            dv.skip(i + 1),
                            arch@,
                            false,
                        )) =~= r.deep_view() + arch_filter_spec(dv.skip(i + 1), arch@, false));
                    }
                }
            },
        }
        i += 1;
    }
    proof {
        assert(dv.skip(i as int) =~= Seq::<Seq<char>>::empty());
        assert(r.deep_view() + arch_filter_spec(dv.skip(i as int), arch@, skipping)
            =~= r.deep_view());
    }
    r
}

// ---------------------------------------------------------------------------
// The rule set.
// ---------------------------------------------------------------------------
/// Ordered keep and delete patterns, every one accepted by the regex crate.
pub struct RuleSet {
    pub to_keep: Vec<String>,
    pub to_delete: Vec<String>,
}

impl RuleSet {
    /// Every pattern of the set compiles as a regular expression.
    pub open spec fn wf(&self) -> bool {
        (forall|i: int|
            0 <= i < self.to_keep.deep_view().len() ==> regex_valid(#[trigger] self.to_keep.deep_view()[i]))
            && (forall|i: int|
            0 <= i < self.to_delete.deep_view().len() ==> regex_valid(
                #[trigger] self.to_delete.deep_view()[i],
            ))
    }
}

/// Some pattern of `pats` matches `text`.
pub open spec fn any_matches(pats: Seq<Seq<char>>, text: Seq<char>) -> bool {
    exists|i: int| 0 <= i < pats.len() && regex_matches(pats[i], text)
}

/// Whether any of the given patterns matches `text`.
pub fn any_rule_matches(pats: &Vec<String>, text: &str) -> (r: bool)
    requires
        forall|i: int| 0 <= i < pats.deep_view().len() ==> regex_valid(#[trigger] pats.deep_view()[i]),
    ensures
        r == any_matches(pats.deep_view(), text@),
{
    let mut i: usize = 0;
    while i < pats.len()
        invariant
            i <= pats@.len(),
            forall|j: int|
                0 <= j < pats.deep_view().len() ==> regex_valid(#[trigger] pats.deep_view()[j]),
            forall|j: int| 0 <= j < i ==> !regex_matches(pats.deep_view()[j], text@),
        decreases pats@.len() - i,
    {
        proof {
            assert(pats.deep_view()[i as int] == pats@[i as int]@);
        }
        if regex_is_match(pats[i].as_str(), text) {
            proof {
                assert(regex_matches(pats.deep_view()[i as int], text@));
            }
            return true;
        }
        i += 1;
    }
    false
}

// ---------------------------------------------------------------------------
// Loading.
// ---------------------------------------------------------------------------
/// A line that carries a rule: non-empty and not a comment.
pub open spec fn is_rule_line(l: Seq<char>) -> bool {
    l.len() > 0 && l[0] != '#'
}

/// A delete-rule line: it begins with `-`.
pub open spec fn is_delete_line(l: Seq<char>) -> bool {
    l.len() > 0 && l[0] == '-'
}

/// All lines of all sources, in source order then line order.
pub open spec fn all_lines_spec(sources: Seq<Seq<char>>) -> Seq<Seq<char>>
    decreases sources.len(),
{
    if sources.len() == 0 {
        seq![]
    } else {
        all_lines_spec(sources.drop_last()) + split_lines_spec(sources.last())
    }
}

/// The lines of `s` that carry rules: blank lines and comments dropped.
pub open spec fn filter_rule_lines(s: Seq<Seq<char>>) -> Seq<Seq<char>>
    decreases s.len(),
{
    if s.len() == 0 {
        seq![]
    } else if is_rule_line(s.last()) {
        filter_rule_lines(s.drop_last()).push(s.last())
    } else {
        filter_rule_lines(s.drop_last())
    }
}

/// The lines of `s` not beginning with `-`, in order.
pub open spec fn keep_patterns_of(s: Seq<Seq<char>>) -> Seq<Seq<char>>
    decreases s.len(),
{
    if s.len() == 0 {
        seq![]
    } else if !is_delete_line(s.last()) {
        keep_patterns_of(s.drop_last()).push(s.last())
    } else {
        keep_patterns_of(s.drop_last())
    }
}

/// The lines of `s` beginning with `-`, the marker stripped, in order.
pub open spec fn delete_patterns_of(s: Seq<Seq<char>>) -> Seq<Seq<char>>
    decreases s.len(),
{
    if s.len() == 0 {
        seq![]
    } else if is_delete_line(s.last()) {
        delete_patterns_of(s.drop_last()).push(s.last().skip(1))
    } else {
        delete_patterns_of(s.drop_last())
    }
}

/// The rule lines that survive comment removal and architecture filtering.
pub open spec fn rule_lines_spec(sources: Seq<Seq<char>>, arch: Seq<char>) -> Seq<Seq<char>> {
    arch_filter_spec(filter_rule_lines(all_lines_spec(sources)), arch, false)
}

/// The keep patterns of the sources: surviving lines not beginning with `-`.
pub open spec fn keep_patterns_spec(sources: Seq<Seq<char>>, arch: Seq<char>) -> Seq<Seq<char>> {
    keep_patterns_of(rule_lines_spec(sources, arch))
}

/// The delete patterns of the sources: surviving lines beginning with `-`,
/// the marker stripped.
pub open spec fn delete_patterns_spec(sources: Seq<Seq<char>>, arch: Seq<char>) -> Seq<Seq<char>> {
    delete_patterns_of(rule_lines_spec(sources, arch))
}

/// Every pattern the sources yield compiles as a regular expression.
pub open spec fn all_patterns_valid(sources: Seq<Seq<char>>, arch: Seq<char>) -> bool {
    (forall|i: int|
        0 <= i < keep_patterns_spec(sources, arch).len() ==> regex_valid(
            #[trigger] keep_patterns_spec(sources, arch)[i],
        )) && (forall|i: int|
        0 <= i < delete_patterns_spec(sources, arch).len() ==> regex_valid(
            #[trigger] delete_patterns_spec(sources, arch)[i],
        ))
}

/// Builds the rule set from the given rule-source texts, filtered by the
/// current architecture. Every pattern is checked against the regex crate: a
/// malformed one fails the whole load with a parse error naming it, so a
/// returned set is well-formed in every part.
pub fn read_config(sources: &Vec<String>, arch: &str) -> (r: Result<RuleSet, JanitorError>)
    ensures
        r is Ok <==> all_patterns_valid(sources.deep_view(), arch@),
        match r {
            Ok(rs) => rs.wf() && rs.to_keep.deep_view() == keep_patterns_spec(
                sources.deep_view(),
                arch@,
            ) && rs.to_delete.deep_view() == delete_patterns_spec(sources.deep_view(), arch@),
            Err(e) => e matches JanitorError::Regex(_),
        },
{
    let ghost sv = sources.deep_view();
    // Gather every line of every source.
    let mut all_lines: Vec<String> = Vec::new();
    let mut i: usize = 0;
    proof {
        assert(all_lines.deep_view() =~= all_lines_spec(sv.take(0)));
    }
    while i < sources.len()
        invariant
            sv == sources.deep_view(),
            i <= sources@.len(),
            all_lines.deep_view() == all_lines_spec(sv.take(i as int)),
        decreases sources@.len() - i,
    {
        let mut lines = split_lines(sources[i].as_str());
        let ghost pre = all_lines.deep_view();
        all_lines.append(&mut lines);
        proof {
            assert(sv.take(i + 1).drop_last() =~= sv.take(i as int));
            assert(sv.take(i + 1).last() == sv[i as int]);
            assert(all_lines.deep_view() =~= pre + split_lines_spec(sv[i as int]));
        }
        i += 1;
    }
    proof {
        assert(sv.take(i as int) =~= sv);
    }
    // Drop blank lines and comments.
    let ghost av = all_lines.deep_view();
    let mut kept: Vec<String> = Vec::new();
    let mut j: usize = 0;
    proof {
        assert(kept.deep_view() =~= filter_rule_lines(av.take(0)));
    }
    while j < all_lines.len()
        invariant
            av == all_lines.deep_view(),
            j <= all_lines@.len(),
            kept.deep_view() == filter_rule_lines(av.take(j as int)),
        decreases all_lines@.len() - j,
    {
        let line = &all_lines[j];
        let keep_it = if line.as_str().unicode_len() == 0 {
            false
        } else {
            line.as_str().get_char(0) != '#'
        };
        let ghost pre = kept.deep_view();
        if keep_it {
            kept.push(line.clone());
        }
        proof {
            assert(av.take(j + 1).drop_last() =~= av.take(j as int));
            assert(av.take(j + 1).last() == av[j as int]);
            if keep_it {
                assert(kept.deep_view() =~= pre.push(av[j as int]));
            }
        }
        j += 1;
    }
    proof {
        assert(av.take(all_lines@.len() as int) =~= av);
    }
    // Apply architecture filtering.
    let filtered = arch_filter(kept, arch);
    let ghost fv = filtered.deep_view();
    proof {
        assert(fv == rule_lines_spec(sv, arch@));
    }
    // Partition into keep and delete patterns.
    let mut keeps: Vec<String> = Vec::new();
    let mut dels: Vec<String> = Vec::new();
    let mut k: usize = 0;
    proof {
        assert(keeps.deep_view() =~= keep_patterns_of(fv.take(0)));
        assert(dels.deep_view() =~= delete_patterns_of(fv.take(0)));
    }
    while k < filtered.len()
        invariant
            fv == filtered.deep_view(),
            k <= filtered@.len(),
            keeps.deep_view() == keep_patterns_of(fv.take(k as int)),
            dels.deep_view() == delete_patterns_of(fv.take(k as int)),
        decreases filtered@.len() - k,
    {
        let line = &filtered[k];
        let is_del = if line.as_str().unicode_len() == 0 {
            false
        } else {
            line.as_str().get_char(0) == '-'
        };
        let ghost pre_k = keeps.deep_view();
        let ghost pre_d = dels.deep_view();
        proof {
            assert(fv.take(k + 1).drop_last() =~= fv.take(k as int));
            assert(fv.take(k + 1).last() == fv[k as int]);
        }
        if is_del {
            let rest = line.as_str().substring_char(1, line.as_str().unicode_len());
            dels.push(rest.to_owned());
            proof {
                assert(rest@ =~= fv[k as int].skip(1));
                assert(dels.deep_view() =~= pre_d.push(fv[k as int].skip(1)));
            }
        } else {
            keeps.push(line.clone());
            proof {
                assert(keeps.deep_view() =~= pre_k.push(fv[k as int]));
            }
        }
        k += 1;
    }
    proof {
        assert(fv.take(filtered@.len() as int) =~= fv);
    }
    // Check every pattern against the regex crate.
    let mut a: usize = 0;
    while a < keeps.len()
        invariant
            sv == sources.deep_view(),
            keeps.deep_view() == keep_patterns_spec(sv, arch@),
            a <= keeps@.len(),
            forall|t: int| 0 <= t < a ==> regex_valid(#[trigger] keeps.deep_view()[t]),
        decreases keeps@.len() - a,
    {
        proof {
            assert(keeps.deep_view()[a as int] == keeps@[a as int]@);
        }
        match regex_compile_check(keeps[a].as_str()) {
            Ok(_) => {},
            Err(e) => {
                proof {
                    assert(!regex_valid(keep_patterns_spec(sv, arch@)[a as int]));
                }
                return Err(JanitorError::Regex(e));
            },
        }
        a += 1;
    }
    let mut b: usize = 0;
    while b < dels.len()
        invariant
            sv == sources.deep_view(),
            dels.deep_view() == delete_patterns_spec(sv, arch@),
            b <= dels@.len(),
            forall|t: int| 0 <= t < b ==> regex_valid(#[trigger] dels.deep_view()[t]),
        decreases dels@.len() - b,
    {
        proof {
            assert(dels.deep_view()[b as int] == dels@[b as int]@);
        }
        match regex_compile_check(dels[b].as_str()) {
            Ok(_) => {},
            Err(e) => {
                proof {
                    assert(!regex_valid(delete_patterns_spec(sv, arch@)[b as int]));
                }
                return Err(JanitorError::Regex(e));
            },
        }
        b += 1;
    }
    Ok(RuleSet { to_keep: keeps, to_delete: dels })
}

} // verus!

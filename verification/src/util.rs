//! Selection of the kernel directory among the module root's subdirectories.

use vstd::prelude::*;

use crate::error::JanitorError;
use crate::strings::str_le_spec;
use crate::strings::str_lt_spec;
use crate::strings::str_lt;

verus! {

/// Lexicographic order is total: of two sequences not strictly ordered one
/// way, the other is less than or equal.
pub proof fn lemma_str_le_total(a: Seq<char>, b: Seq<char>)
    requires
        !str_lt_spec(b, a),
    ensures
        str_le_spec(a, b),
    decreases a.len(),
{
    if a.len() == 0 {
        if b.len() == 0 {
            assert(a =~= b);
        }
    } else if b.len() == 0 {
    } else if a[0] == b[0] {
        lemma_str_le_total(a.skip(1), b.skip(1));
        if a.skip(1) == b.skip(1) {
            assert(a =~= seq![a[0]] + a.skip(1));
            assert(b =~= seq![b[0]] + b.skip(1));
            assert(a == b);
        }
    } else {
    }
}

/// Lexicographic order is transitive across a strict step.
pub proof fn lemma_str_le_lt_trans(a: Seq<char>, b: Seq<char>, c: Seq<char>)
    requires
        str_le_spec(a, b),
        str_lt_spec(b, c),
    ensures
        str_lt_spec(a, c),
    decreases a.len(),
{
    if a == b {
    } else if a.len() == 0 {
        assert(c.len() > 0);
    } else {
        assert(str_lt_spec(a, b));
        assert(b.len() > 0);
        assert(c.len() > 0);
        if a[0] == b[0] {
            if b[0] == c[0] {
                lemma_str_le_lt_trans(a.skip(1), b.skip(1), c.skip(1));
            } else {
                assert(b[0] < c[0]);
            }
        } else {
            assert(a[0] < b[0]);
            if b[0] == c[0] {
                assert(a[0] < c[0]);
            } else {
                assert(b[0] < c[0]);
            }
        }
    }
}

/// Picks the kernel directory to scan: the lexicographically greatest of the
/// subdirectory paths found under the module root, so that of several
/// installed kernels the newest version is chosen deterministically. With no
/// subdirectory at all the module root holds no kernel and an error names it.
pub fn find_kernel_dir(module_dir: &str, subdirs: &Vec<String>) -> (r: Result<
    String,
    JanitorError,
>)
    ensures
        match r {
            Ok(d) => subdirs.deep_view().contains(d@) && (forall|i: int|
                0 <= i < subdirs.deep_view().len() ==> str_le_spec(
                    subdirs.deep_view()[i],
                    d@,
                )),
            Err(e) => subdirs@.len() == 0 && (e matches JanitorError::NoKernelDir(p)
                && p@ == module_dir@),
        },
{
    if subdirs.len() == 0 {
        return Err(JanitorError::NoKernelDir(module_dir.to_owned()));
    }
    let ghost dv = subdirs.deep_view();
    let mut best: usize = 0;
    let mut i: usize = 1;
    while i < subdirs.len()
        invariant
            dv == subdirs.deep_view(),
            subdirs@.len() > 0,
            best < i,
            i <= subdirs@.len(),
            forall|j: int| 0 <= j < i ==> str_le_spec(dv[j], dv[best as int]),
        decreases subdirs@.len() - i,
    {
        if str_lt(subdirs[best].as_str(), subdirs[i].as_str()) {
            proof {
                assert forall|j: int| 0 <= j <= i implies str_le_spec(dv[j], dv[i as int]) by {
                    if j < i {
                        lemma_str_le_lt_trans(dv[j], dv[best as int], dv[i as int]);
                    }
                }
            }
            best = i;
        } else {
            proof {
                lemma_str_le_total(dv[i as int], dv[best as int]);
            }
        }
        i += 1;
    }
    let d = subdirs[best].clone();
    proof {
        assert(dv[best as int] == d@);
    }
    Ok(d)
}

} // verus!

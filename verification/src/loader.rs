//! Host-side checks around loading: which file names count as candidate
//! modules, and the text of a batch load's aggregate error.
//!
//! Opening a module, resolving its factory export, and running its hooks
//! happen at the dynamic-loading boundary outside this library; what can
//! be stated of plain values — name shapes and error aggregation — is
//! verified here.

use vstd::prelude::*;

use vstd::string::StrSliceExecFns;
use vstd::string::StringExecFns;

verus! {

/// The contents of each string in `v`.
pub open spec fn contents_of(v: Seq<String>) -> Seq<Seq<char>> {
    v.map_values(|s: String| s@)
}

/// `path` ends in a dot followed by `ext`, with at least one character
/// before the dot: the shape of a candidate module file name.
pub open spec fn has_extension_spec(path: Seq<char>, ext: Seq<char>) -> bool {
    &&& path.len() >= ext.len() + 2
    &&& path[path.len() - ext.len() - 1] == '.'
    &&& path.subrange(path.len() - ext.len(), path.len() as int) == ext
}

/// Whether `path` names a candidate module file for a platform whose
/// native modules carry the extension `extension` (without the dot).
///
/// This is the name-shape half of validating a candidate; whether the
/// path exists, is a regular file, and is executable is checked at the
/// filesystem boundary by the caller.
pub fn has_module_extension(path: &str, extension: &str) -> (r: bool)
    ensures
        r == has_extension_spec(path@, extension@),
{
    let plen = path.unicode_len();
    let xlen = extension.unicode_len();
    if plen <= xlen || plen - xlen < 2 {
        return false;
    }
    if path.get_char(plen - xlen - 1) != '.' {
        return false;
    }
    let mut k: usize = 0;
    while k < xlen
        invariant
            plen == path@.len(),
            xlen == extension@.len(),
            plen >= xlen + 2,
            k <= xlen,
            forall|j: int| 0 <= j < k ==> path@[plen - xlen + j] == extension@[j],
        decreases xlen - k,
    {
        if path.get_char(plen - xlen + k) != extension.get_char(k) {
            proof {
                let sub = path@.subrange(plen - xlen, plen as int);
                assert(sub[k as int] == path@[plen - xlen + k]);
            }
            return false;
        }
        k += 1;
    }
    proof {
        assert(path@.subrange(plen - xlen, plen as int) =~= extension@);
    }
    true
}

/// The contents of `msgs`, joined by single newlines.
pub open spec fn joined(msgs: Seq<Seq<char>>) -> Seq<char>
    decreases msgs.len(),
{
    if msgs.len() == 0 {
        Seq::<char>::empty()
    } else if msgs.len() == 1 {
        msgs[0]
    } else {
        joined(msgs.drop_last()) + seq!['\n'] + msgs.last()
    }
}

/// Join `msgs` into one string, one message per line.
pub fn join_lines(msgs: &Vec<String>) -> (r: String)
    ensures
        r@ == joined(contents_of(msgs@)),
{
    let ghost all = contents_of(msgs@);
    let mut r = String::new();
    let mut i: usize = 0;
    proof {
        assert(all.take(0) =~= Seq::<Seq<char>>::empty());
    }
    while i < msgs.len()
        invariant
            i <= msgs@.len(),
            all == contents_of(msgs@),
            all.len() == msgs@.len(),
            forall|j: int| 0 <= j < msgs@.len() ==> all[j] == msgs@[j]@,
            r@ == joined(all.take(i as int)),
        decreases msgs@.len() - i,
    {
        let ghost before = r@;
        if i > 0 {
            r.append("\n");
        }
        r.append(msgs[i].as_str());
        proof {
            reveal_strlit("\n");
            assert("\n"@ =~= seq!['\n']);
            let t1 = all.take(i + 1);
            assert(t1.drop_last() =~= all.take(i as int));
            assert(t1.last() == msgs@[i as int]@);
            if i == 0 {
                assert(joined(all.take(0)) == Seq::<char>::empty());
                assert(before =~= Seq::<char>::empty());
                assert(r@ =~= t1[0]);
                assert(t1.len() == 1);
            } else {
                assert(t1.len() >= 2);
                assert(r@ =~= joined(t1.drop_last()) + seq!['\n'] + t1.last());
            }
            assert(r@ == joined(all.take(i + 1)));
        }
        i += 1;
    }
    proof {
        assert(all.take(msgs@.len() as int) =~= all);
    }
    r
}

} // verus!

//! Verified helpers for comparing path-component names: equality, suffix
//! tests and a case-insensitive lexicographic order.

use vstd::prelude::*;
use vstd::string::*;

verus! {

/// `suffix` is a suffix of `s`.
pub open spec fn is_suffix_of(suffix: Seq<char>, s: Seq<char>) -> bool {
    suffix.len() <= s.len() && s.subrange(s.len() - suffix.len(), s.len() as int) == suffix
}

/// Character-by-character string equality.
pub fn str_eq(a: &str, b: &str) -> (r: bool)
    ensures
        r == (a@ == b@),
{
    let an = a.unicode_len();
    let bn = b.unicode_len();
    if an != bn {
        return false;
    }
    let mut i: usize = 0;
    while i < an
        invariant
            an == a@.len(),
            an == b@.len(),
            i <= an,
            forall|j: int| 0 <= j < i ==> a@[j] == b@[j],
        decreases an - i,
    {
        if a.get_char(i) != b.get_char(i) {
            return false;
        }
        i += 1;
    }
    proof {
        assert(a@ =~= b@);
    }
    true
}

/// `s` ends with `suffix`.
pub fn str_ends_with(s: &str, suffix: &str) -> (r: bool)
    ensures
        r == is_suffix_of(suffix@, s@),
{
    let sn = s.unicode_len();
    let xn = suffix.unicode_len();
    if xn > sn {
        return false;
    }
    let off = sn - xn;
    let mut i: usize = 0;
    while i < xn
        invariant
            sn == s@.len(),
            xn == suffix@.len(),
            off == sn - xn,
            xn <= sn,
            i <= xn,
            forall|j: int| 0 <= j < i ==> s@[off + j] == suffix@[j],
        decreases xn - i,
    {
        if s.get_char(off + i) != suffix.get_char(i) {
            proof {
                let tail = s@.subrange(s@.len() - suffix@.len(), s@.len() as int);
                assert(tail.len() == xn);
                assert(tail[i as int] == s@[off + i]);
            }
            return false;
        }
        i += 1;
    }
    proof {
        assert(s@.subrange(s@.len() - suffix@.len(), s@.len() as int) =~= suffix@);
    }
    true
}

/// Lexicographic order on character sequences by code point.
pub open spec fn lex_le(x: Seq<char>, y: Seq<char>) -> bool
    decreases x.len(),
{
    if x.len() == 0 {
        true
    } else if y.len() == 0 {
        false
    } else if x[0] as u32 == y[0] as u32 {
        lex_le(x.drop_first(), y.drop_first())
    } else {
        (x[0] as u32) < (y[0] as u32)
    }
}

/// `lex_le` is total.
pub proof fn lemma_lex_le_total(x: Seq<char>, y: Seq<char>)
    ensures
        lex_le(x, y) || lex_le(y, x),
    decreases x.len(),
{
    if x.len() > 0 && y.len() > 0 && x[0] as u32 == y[0] as u32 {
        lemma_lex_le_total(x.drop_first(), y.drop_first());
    }
}

/// `lex_le` is transitive.
pub proof fn lemma_lex_le_trans(x: Seq<char>, y: Seq<char>, z: Seq<char>)
    requires
        lex_le(x, y),
        lex_le(y, z),
    ensures
        lex_le(x, z),
    decreases x.len(),
{
    if x.len() > 0 && y.len() > 0 && z.len() > 0 && x[0] as u32 == y[0] as u32 && y[0] as u32 == z[
        0] as u32 {
        lemma_lex_le_trans(x.drop_first(), y.drop_first(), z.drop_first());
    }
}

/// Compare two strings lexicographically by code point.
pub fn str_lex_le(a: &str, b: &str) -> (r: bool)
    ensures
        r == lex_le(a@, b@),
{
    let an = a.unicode_len();
    let bn = b.unicode_len();
    let mut i: usize = 0;
    proof {
        assert(a@.subrange(0, an as int) =~= a@);
        assert(b@.subrange(0, bn as int) =~= b@);
    }
    loop
        invariant
            an == a@.len(),
            bn == b@.len(),
            i <= an,
            i <= bn,
            lex_le(a@, b@) == lex_le(
                a@.subrange(i as int, an as int),
                b@.subrange(i as int, bn as int),
            ),
        decreases an - i,
    {
        let ghost ax = a@.subrange(i as int, an as int);
        let ghost bx = b@.subrange(i as int, bn as int);
        if i >= an {
            proof {
                assert(ax.len() == 0);
            }
            return true;
        }
        if i >= bn {
            proof {
                assert(bx.len() == 0);
            }
            return false;
        }
        let ca = a.get_char(i) as u32;
        let cb = b.get_char(i) as u32;
        proof {
            assert(ax[0] == a@[i as int]);
            assert(bx[0] == b@[i as int]);
        }
        if ca == cb {
            proof {
                assert(ax.drop_first() =~= a@.subrange(i + 1, an as int));
                assert(bx.drop_first() =~= b@.subrange(i + 1, bn as int));
            }
            i += 1;
        } else {
            return ca < cb;
        }
    }
}

/// What lowercasing a string yields; the result depends on the
/// characters alone.
pub uninterp spec fn lower_of(s: Seq<char>) -> Seq<char>;

/// Relies on str::to_lowercase: the Unicode lowercase mapping of the
/// string, a function of its characters alone.
#[verifier::external_body]
pub fn lowercase(s: &str) -> (r: String)
    ensures
        r@ == lower_of(s@),
{
    s.to_lowercase()
}

/// What trimming a string yields; the result depends on the characters
/// alone.
pub uninterp spec fn trim_of(s: Seq<char>) -> Seq<char>;

/// Relies on str::trim: the input without leading and trailing Unicode
/// whitespace — a function of its characters alone, and a substring of
/// the input, so never longer.
#[verifier::external_body]
pub fn trim_str(s: &str) -> (r: String)
    ensures
        r@ == trim_of(s@),
        r@.len() <= s@.len(),
{
    s.trim().to_owned()
}

} // verus!

//! Case-insensitive collation for listings: labels are compared by their
//! lowercase folding, ascending lexicographically by character value.

use vstd::prelude::*;

verus! {

/// The lowercase folding of a character sequence, as `str::to_lowercase`
/// produces it from the Unicode tables.
pub uninterp spec fn lower_of(s: Seq<char>) -> Seq<char>;

/// Relies on `str::to_lowercase`: the folding depends on the characters
/// alone.
#[verifier::external_body]
pub(crate) fn to_lowercase(s: &str) -> (r: String)
    ensures
        r@ == lower_of(s@),
{
    s.to_lowercase()
}

/// Lexicographic order on character sequences, by character value; a prefix
/// sorts before its extensions.
pub open spec fn seq_le(a: Seq<char>, b: Seq<char>) -> bool
    decreases a.len(),
{
    if a.len() == 0 {
        true
    } else if b.len() == 0 {
        false
    } else if a[0] as u32 == b[0] as u32 {
        seq_le(a.drop_first(), b.drop_first())
    } else {
        (a[0] as u32) < (b[0] as u32)
    }
}

/// The order is reflexive.
pub proof fn lemma_seq_le_refl(a: Seq<char>)
    ensures
        seq_le(a, a),
    decreases a.len(),
{
    if a.len() > 0 {
        lemma_seq_le_refl(a.drop_first());
    }
}

/// The order is total.
pub proof fn lemma_seq_le_total(a: Seq<char>, b: Seq<char>)
    ensures
        seq_le(a, b) || seq_le(b, a),
    decreases a.len(),
{
    if a.len() > 0 && b.len() > 0 && a[0] as u32 == b[0] as u32 {
        lemma_seq_le_total(a.drop_first(), b.drop_first());
    }
}

/// The order is transitive.
pub proof fn lemma_seq_le_trans(a: Seq<char>, b: Seq<char>, c: Seq<char>)
    requires
        seq_le(a, b),
        seq_le(b, c),
    ensures
        seq_le(a, c),
    decreases a.len(),
{
    if a.len() > 0 && b.len() > 0 && c.len() > 0 {
        if a[0] as u32 == b[0] as u32 && b[0] as u32 == c[0] as u32 {
            lemma_seq_le_trans(a.drop_first(), b.drop_first(), c.drop_first());
        }
    }
}

/// The order is decided at the first position where the sequences differ.
proof fn lemma_seq_le_first_diff(a: Seq<char>, b: Seq<char>, k: int)
    requires
        0 <= k <= a.len(),
        k <= b.len(),
        forall|i: int| 0 <= i < k ==> (#[trigger] a[i]) as u32 == b[i] as u32,
        k == a.len() || k == b.len() || a[k] as u32 != b[k] as u32,
    ensures
        seq_le(a, b) == (k == a.len() || (k < a.len() && k < b.len() && (a[k] as u32) < (
        b[k] as u32))),
    decreases k,
{
    if k == 0 {
    } else {
        let ta = a.drop_first();
        let tb = b.drop_first();
        assert forall|i: int| 0 <= i < k - 1 implies (#[trigger] ta[i]) as u32
            == tb[i] as u32 by {
            assert(ta[i] == a[i + 1]);
            assert(tb[i] == b[i + 1]);
        }
        if k - 1 < ta.len() && k - 1 < tb.len() {
            assert(ta[k - 1] == a[k]);
            assert(tb[k - 1] == b[k]);
        }
        lemma_seq_le_first_diff(ta, tb, k - 1);
    }
}

/// Whether one text sorts at or before another, lexicographically by
/// character value.
pub(crate) fn str_le(a: &str, b: &str) -> (r: bool)
    ensures
        r == seq_le(a@, b@),
{
    let na = a.unicode_len();
    let nb = b.unicode_len();
    let mut k: usize = 0;
    while k < na && k < nb
        invariant_except_break
            0 <= k <= na,
            k <= nb,
            na == a@.len(),
            nb == b@.len(),
            forall|i: int| 0 <= i < k ==> (#[trigger] a@[i]) as u32 == b@[i] as u32,
        ensures
            0 <= k <= na,
            k <= nb,
            na == a@.len(),
            nb == b@.len(),
            forall|i: int| 0 <= i < k ==> (#[trigger] a@[i]) as u32 == b@[i] as u32,
            k == na || k == nb || a@[k as int] as u32 != b@[k as int] as u32,
        decreases na - k,
    {
        if (a.get_char(k) as u32) != (b.get_char(k) as u32) {
            break ;
        }
        k += 1;
    }
    proof {
        lemma_seq_le_first_diff(a@, b@, k as int);
    }
    if k == na {
        true
    } else if k == nb {
        false
    } else {
        (a.get_char(k) as u32) < (b.get_char(k) as u32)
    }
}

} // verus!

//! The order of strings: lexicographic by character (code point). For UTF-8
//! text this is the order of `str`'s `Ord`, which compares the bytes, since
//! UTF-8 keeps the order of code points.
use vstd::prelude::*;

verus! {

/// `a` comes before `b`: at the first place they differ `a` has the smaller
/// character, or `a` is a proper prefix of `b`.
pub open spec fn chars_before(a: Seq<char>, b: Seq<char>) -> bool
    decreases a.len(),
{
    if a.len() == 0 {
        b.len() > 0
    } else if b.len() == 0 {
        false
    } else if a[0] != b[0] {
        (a[0] as int) < (b[0] as int)
    } else {
        chars_before(a.drop_first(), b.drop_first())
    }
}

/// No string comes before itself, and of two different strings exactly one
/// comes first.
pub proof fn lemma_before_total(a: Seq<char>, b: Seq<char>)
    ensures
        !chars_before(a, a),
        chars_before(a, b) ==> !chars_before(b, a),
        a != b ==> chars_before(a, b) || chars_before(b, a),
    decreases a.len(),
{
    if a.len() > 0 {
        lemma_before_total(a.drop_first(), a.drop_first());
        if b.len() > 0 {
            lemma_before_total(a.drop_first(), b.drop_first());
            if a[0] == b[0] && a.drop_first() == b.drop_first() {
                assert(a =~= seq![a[0]] + a.drop_first());
                assert(b =~= seq![b[0]] + b.drop_first());
            }
            if a[0] != b[0] {
                assert((a[0] as int) != (b[0] as int));
            }
        }
    } else if b.len() == 0 {
        assert(a =~= b);
    }
}

/// The order is transitive.
pub proof fn lemma_before_trans(a: Seq<char>, b: Seq<char>, c: Seq<char>)
    requires
        chars_before(a, b),
        chars_before(b, c),
    ensures
        chars_before(a, c),
    decreases a.len(),
{
    if a.len() > 0 && b.len() > 0 && c.len() > 0 {
        if a[0] == b[0] && b[0] == c[0] {
            lemma_before_trans(a.drop_first(), b.drop_first(), c.drop_first());
        }
    }
}

/// Compares two strings' characters.
pub fn chars_less(a: &Vec<char>, b: &Vec<char>) -> (r: bool)
    ensures
        r == chars_before(a@, b@),
{
    let mut i: usize = 0;
    assert(a@.skip(0) =~= a@ && b@.skip(0) =~= b@);
    while i < a.len() && i < b.len() && a[i] == b[i]
        invariant
            i <= a@.len(),
            i <= b@.len(),
            chars_before(a@, b@) == chars_before(a@.skip(i as int), b@.skip(i as int)),
        decreases a@.len() - i,
    {
        proof {
            let sa = a@.skip(i as int);
            let sb = b@.skip(i as int);
            assert(sa.drop_first() =~= a@.skip(i + 1));
            assert(sb.drop_first() =~= b@.skip(i + 1));
        }
        i = i + 1;
    }
    let ghost sa = a@.skip(i as int);
    let ghost sb = b@.skip(i as int);
    if i == a.len() {
        i < b.len()
    } else if i == b.len() {
        false
    } else {
        assert(sa[0] == a@[i as int] && sb[0] == b@[i as int]);
        a[i] < b[i]
    }
}

} // verus!

//! Lexicographic order on byte strings, and how prefix-sharing keys sit
//! inside it: the facts the trade log's prefix scans rest on.

use vstd::prelude::*;

verus! {

/// Strict lexicographic order: the first differing byte decides; a proper
/// prefix sorts before its extensions.
pub open spec fn lex_lt(a: Seq<u8>, b: Seq<u8>) -> bool
    decreases a.len(),
{
    if b.len() == 0 {
        false
    } else if a.len() == 0 {
        true
    } else if a[0] < b[0] {
        true
    } else if a[0] > b[0] {
        false
    } else {
        lex_lt(a.skip(1), b.skip(1))
    }
}

pub open spec fn lex_le(a: Seq<u8>, b: Seq<u8>) -> bool {
    a == b || lex_lt(a, b)
}

pub proof fn lemma_lex_irrefl(a: Seq<u8>)
    ensures
        !lex_lt(a, a),
    decreases a.len(),
{
    if a.len() > 0 {
        lemma_lex_irrefl(a.skip(1));
    }
}

/// Any two byte strings are ordered or equal.
pub proof fn lemma_lex_total(a: Seq<u8>, b: Seq<u8>)
    ensures
        lex_lt(a, b) || lex_lt(b, a) || a == b,
    decreases a.len(),
{
    if a.len() > 0 && b.len() > 0 && a[0] == b[0] {
        lemma_lex_total(a.skip(1), b.skip(1));
        if a.skip(1) == b.skip(1) {
            assert forall|i: int| 0 <= i < a.len() implies a[i] == b[i] by {
                if i > 0 {
                    assert(a.skip(1)[i - 1] == a[i]);
                    assert(b.skip(1)[i - 1] == b[i]);
                }
            }
            assert(a =~= b);
        }
    }
}

pub proof fn lemma_lex_trans(a: Seq<u8>, b: Seq<u8>, c: Seq<u8>)
    requires
        lex_lt(a, b),
        lex_lt(b, c),
    ensures
        lex_lt(a, c),
    decreases a.len(),
{
    if a.len() > 0 && b.len() > 0 && c.len() > 0 && a[0] == b[0] && b[0] == c[0] {
        lemma_lex_trans(a.skip(1), b.skip(1), c.skip(1));
    }
}

pub proof fn lemma_lex_asym(a: Seq<u8>, b: Seq<u8>)
    requires
        lex_lt(a, b),
    ensures
        !lex_lt(b, a),
{
    if lex_lt(b, a) {
        lemma_lex_trans(a, b, a);
        lemma_lex_irrefl(a);
    }
}

/// Whether `k` starts with the bytes of `p`.
pub open spec fn has_prefix(k: Seq<u8>, p: Seq<u8>) -> bool {
    p.len() <= k.len() && k.subrange(0, p.len() as int) == p
}

/// A prefix sorts at or before each of its extensions.
pub proof fn lemma_prefix_le(p: Seq<u8>, k: Seq<u8>)
    requires
        has_prefix(k, p),
    ensures
        lex_le(p, k),
    decreases p.len(),
{
    if p.len() == 0 {
        if k.len() == 0 {
            assert(p =~= k);
        }
    } else {
        assert(k.subrange(0, p.len() as int)[0] == k[0]);
        assert(p[0] == k[0]);
        assert(k.skip(1).subrange(0, p.len() - 1) =~= k.subrange(0, p.len() as int).skip(1));
        assert(k.subrange(0, p.len() as int).skip(1) =~= p.skip(1));
        lemma_prefix_le(p.skip(1), k.skip(1));
        if p == k {
        } else if p.skip(1) == k.skip(1) && p[0] == k[0] && p.len() == k.len() {
            assert(p =~= k);
            assert(false);
        }
    }
}

/// Anything at or after a prefix that does not carry the prefix sorts after
/// every key that does: the keys sharing a prefix form one contiguous run.
pub proof fn lemma_after_prefix_block(p: Seq<u8>, k: Seq<u8>, s: Seq<u8>)
    requires
        lex_le(p, k),
        !has_prefix(k, p),
        has_prefix(s, p),
    ensures
        lex_lt(s, k),
    decreases p.len(),
{
    if p.len() == 0 {
        assert(k.subrange(0, 0) =~= p);
        assert(false);
    } else {
        assert(s.subrange(0, p.len() as int)[0] == s[0]);
        assert(s[0] == p[0]);
        if k.len() == 0 {
            assert(!lex_lt(p, k));
            assert(p != k);
            assert(false);
        }
        if p[0] < k[0] {
            // differs at the very first byte: s[0] == p[0] < k[0]
            assert(lex_lt(s, k));
        } else if p[0] > k[0] {
            assert(!lex_lt(p, k) && p != k);
            assert(false);
        } else {
            // equal first bytes: recurse
            assert(p != k ==> lex_lt(p, k));
            if p == k {
                assert(has_prefix(k, p)) by {
                    assert(k.subrange(0, p.len() as int) =~= p);
                }
                assert(false);
            }
            assert(lex_lt(p.skip(1), k.skip(1)));
            assert(!has_prefix(k.skip(1), p.skip(1))) by {
                if has_prefix(k.skip(1), p.skip(1)) {
                    assert(k.skip(1).subrange(0, p.len() - 1) == p.skip(1));
                    assert forall|i: int| 0 <= i < p.len() implies k.subrange(0, p.len() as int)[i]
                        == p[i] by {
                        assert(k.subrange(0, p.len() as int)[i] == k[i]);
                        if i > 0 {
                            assert(p.skip(1)[i - 1] == p[i]);
                            assert(k.skip(1).subrange(0, p.len() - 1)[i - 1] == k.skip(1)[i - 1]);
                            assert(k.skip(1)[i - 1] == k[i]);
                        }
                    }
                    assert(k.subrange(0, p.len() as int) =~= p);
                }
            }
            assert(has_prefix(s.skip(1), p.skip(1))) by {
                assert(s.skip(1).subrange(0, p.len() - 1) =~= s.subrange(0, p.len() as int).skip(
                    1,
                ));
            }
            lemma_after_prefix_block(p.skip(1), k.skip(1), s.skip(1));
            assert(s[0] == k[0]);
            assert(lex_lt(s.skip(1), k.skip(1)));
        }
    }
}

} // verus!

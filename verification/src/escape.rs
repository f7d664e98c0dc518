//! Escaping of string values for the emitted PHP artifact: a backslash is
//! placed before every literal backslash and double quote; no other character
//! is altered.

use vstd::prelude::*;

verus! {

/// Whether `c` must be escaped in the output.
pub open spec fn needs_escape(c: char) -> bool {
    c == '\\' || c == '"'
}

/// How one character is emitted: escaped characters gain exactly one leading
/// backslash, all others pass through unaltered.
pub open spec fn esc_char(c: char) -> Seq<char> {
    if needs_escape(c) {
        seq!['\\', c]
    } else {
        seq![c]
    }
}

/// `s` with every backslash and double quote preceded by one backslash.
pub open spec fn escaped(s: Seq<char>) -> Seq<char>
    decreases s.len(),
{
    if s.len() == 0 {
        Seq::empty()
    } else {
        escaped(s.drop_last()) + esc_char(s.last())
    }
}

/// Escaping distributes over concatenation: each character is escaped on its
/// own, independent of its neighbours.
pub proof fn lemma_escaped_append(a: Seq<char>, b: Seq<char>)
    ensures
        escaped(a + b) == escaped(a) + escaped(b),
    decreases b.len(),
{
    if b.len() == 0 {
        assert(a + b =~= a);
        assert(escaped(a) + escaped(b) =~= escaped(a));
    } else {
        lemma_escaped_append(a, b.drop_last());
        assert((a + b).drop_last() =~= a + b.drop_last());
        assert((a + b).last() == b.last());
        assert(escaped(a) + escaped(b.drop_last()) + esc_char(b.last()) =~= escaped(a) + escaped(
            b,
        ));
    }
}

/// A sequence with no backslash and no double quote is emitted unaltered.
pub proof fn lemma_escaped_plain(s: Seq<char>)
    requires
        forall|i: int| 0 <= i < s.len() ==> !needs_escape(s[i]),
    ensures
        escaped(s) == s,
    decreases s.len(),
{
    if s.len() == 0 {
        assert(escaped(s) =~= s);
    } else {
        lemma_escaped_plain(s.drop_last());
        assert(escaped(s) =~= s);
    }
}

/// A single character escapes to `esc_char` of it: one backslash before a
/// backslash or double quote, the character alone otherwise.
pub proof fn lemma_escaped_single(c: char)
    ensures
        escaped(seq![c]) == esc_char(c),
{
    let e = Seq::<char>::empty();
    assert(escaped(e) =~= e);
    assert(seq![c].drop_last() =~= e);
    assert(seq![c].last() == c);
    assert(e + esc_char(c) =~= esc_char(c));
}

/// Escapes `value` for the PHP artifact.
pub fn php_escape(value: &str) -> (r: String)
    ensures
        r@ == escaped(value@),
{
    let n = value.unicode_len();
    let mut out = String::new();
    let mut i: usize = 0;
    while i < n
        invariant
            n == value@.len(),
            0 <= i <= n,
            out@ == escaped(value@.subrange(0, i as int)),
        decreases n - i,
    {
        let ghost pre = value@.subrange(0, i as int);
        let ghost post = value@.subrange(0, i + 1);
        proof {
            reveal_strlit("\\");
            assert(post.drop_last() =~= pre);
            assert("\\"@ =~= seq!['\\']);
        }
        let c = value.get_char(i);
        if c == '\\' || c == '"' {
            out.append("\\");
        }
        out.append(value.substring_char(i, i + 1));
        proof {
            assert(value@.subrange(i as int, i + 1) =~= seq![value@[i as int]]);
            assert(out@ =~= escaped(post));
        }
        i = i + 1;
    }
    proof {
        assert(value@.subrange(0, n as int) =~= value@);
    }
    out
}

} // verus!

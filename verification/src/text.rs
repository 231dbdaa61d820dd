//! Verified text helpers: white-space trimming for deriving the matching
//! text from a payload, and lexicographic ordering of labels for the
//! deterministic tie-break.

use vstd::prelude::*;

verus! {

/// The Unicode `White_Space` code points, the set that `str` trimming
/// removes from the ends of a string.
pub open spec fn is_space_char(c: char) -> bool {
    c == '\u{9}' || c == '\u{A}' || c == '\u{B}' || c == '\u{C}' || c == '\u{D}'
        || c == ' ' || c == '\u{85}' || c == '\u{A0}' || c == '\u{1680}'
        || ('\u{2000}' <= c && c <= '\u{200A}') || c == '\u{2028}' || c == '\u{2029}'
        || c == '\u{202F}' || c == '\u{205F}' || c == '\u{3000}'
}

/// Executable test for [`is_space_char`].
pub fn is_space(c: char) -> (r: bool)
    ensures
        r == is_space_char(c),
{
    c == '\u{9}' || c == '\u{A}' || c == '\u{B}' || c == '\u{C}' || c == '\u{D}'
        || c == ' ' || c == '\u{85}' || c == '\u{A0}' || c == '\u{1680}'
        || ('\u{2000}' <= c && c <= '\u{200A}') || c == '\u{2028}' || c == '\u{2029}'
        || c == '\u{202F}' || c == '\u{205F}' || c == '\u{3000}'
}

/// The string with all trailing white space removed.
pub open spec fn trim_end_spec(s: Seq<char>) -> Seq<char>
    decreases s.len(),
{
    if s.len() > 0 && is_space_char(s.last()) {
        trim_end_spec(s.drop_last())
    } else {
        s
    }
}

/// The string with all leading white space removed.
pub open spec fn trim_start_spec(s: Seq<char>) -> Seq<char>
    decreases s.len(),
{
    if s.len() > 0 && is_space_char(s.first()) {
        trim_start_spec(s.drop_first())
    } else {
        s
    }
}

/// The string with white space removed from both ends.
pub open spec fn trim_spec(s: Seq<char>) -> Seq<char> {
    trim_end_spec(trim_start_spec(s))
}

/// Removes trailing white space, as the matching text of a textual payload
/// requires.
pub fn trim_end(s: &str) -> (r: String)
    ensures
        r@ == trim_end_spec(s@),
{
    let len = s.unicode_len();
    let mut i: usize = len;
    proof {
        assert(s@.take(len as int) =~= s@);
    }
    while i > 0 && is_space(s.get_char(i - 1))
        invariant
            i <= len,
            len == s@.len(),
            trim_end_spec(s@) == trim_end_spec(s@.take(i as int)),
        decreases i,
    {
        proof {
            assert(s@.take(i as int).last() == s@[i - 1]);
            assert(s@.take(i as int).drop_last() =~= s@.take(i - 1));
        }
        i = i - 1;
    }
    proof {
        if i > 0 {
            assert(s@.take(i as int).last() == s@[i - 1]);
        }
        assert(trim_end_spec(s@.take(i as int)) == s@.take(i as int));
    }
    s.substring_char(0, i).to_owned()
}

/// Removes white space from both ends, as the matching text of a binary
/// payload (a MIME type read from an external inspector) requires.
pub fn trim(s: &str) -> (r: String)
    ensures
        r@ == trim_spec(s@),
{
    let len = s.unicode_len();
    let mut a: usize = 0;
    proof {
        assert(s@.skip(0) =~= s@);
    }
    while a < len && is_space(s.get_char(a))
        invariant
            a <= len,
            len == s@.len(),
            trim_start_spec(s@) == trim_start_spec(s@.skip(a as int)),
        decreases len - a,
    {
        proof {
            assert(s@.skip(a as int).first() == s@[a as int]);
            assert(s@.skip(a as int).drop_first() =~= s@.skip(a + 1));
        }
        a = a + 1;
    }
    proof {
        if a < len {
            assert(s@.skip(a as int).first() == s@[a as int]);
        }
        assert(trim_start_spec(s@) == s@.skip(a as int));
    }
    let mut b: usize = len;
    while b > a && is_space(s.get_char(b - 1))
        invariant
            a <= b <= len,
            len == s@.len(),
            trim_start_spec(s@) == s@.skip(a as int),
            trim_end_spec(s@.skip(a as int)) == trim_end_spec(s@.subrange(a as int, b as int)),
        decreases b,
    {
        proof {
            assert(s@.skip(a as int) =~= s@.subrange(a as int, len as int));
            assert(s@.subrange(a as int, b as int).last() == s@[b - 1]);
            assert(s@.subrange(a as int, b as int).drop_last() =~= s@.subrange(a as int, b - 1));
        }
        b = b - 1;
    }
    proof {
        assert(s@.skip(a as int) =~= s@.subrange(a as int, len as int));
        if b > a {
            assert(s@.subrange(a as int, b as int).last() == s@[b - 1]);
        }
        assert(trim_end_spec(s@.subrange(a as int, b as int)) == s@.subrange(a as int, b as int));
    }
    s.substring_char(a, b).to_owned()
}

/// Strict lexicographic order on character sequences: a proper prefix comes
/// first, otherwise the first differing character decides.
pub open spec fn lex_lt(a: Seq<char>, b: Seq<char>) -> bool
    decreases a.len(),
{
    if b.len() == 0 {
        false
    } else if a.len() == 0 {
        true
    } else if a.first() == b.first() {
        lex_lt(a.drop_first(), b.drop_first())
    } else {
        a.first() < b.first()
    }
}

/// Executable lexicographic comparison deciding [`lex_lt`].
pub fn str_lex_lt(a: &str, b: &str) -> (r: bool)
    ensures
        r == lex_lt(a@, b@),
{
    let la = a.unicode_len();
    let lb = b.unicode_len();
    let mut i: usize = 0;
    proof {
        assert(a@.skip(0) =~= a@);
        assert(b@.skip(0) =~= b@);
    }
    while i < la && i < lb
        invariant
            i <= la,
            i <= lb,
            la == a@.len(),
            lb == b@.len(),
            lex_lt(a@, b@) == lex_lt(a@.skip(i as int), b@.skip(i as int)),
        decreases la - i,
    {
        let ca = a.get_char(i);
        let cb = b.get_char(i);
        proof {
            assert(a@.skip(i as int).first() == a@[i as int]);
            assert(b@.skip(i as int).first() == b@[i as int]);
            assert(a@.skip(i as int).drop_first() =~= a@.skip(i + 1));
            assert(b@.skip(i as int).drop_first() =~= b@.skip(i + 1));
        }
        if ca != cb {
            return ca < cb;
        }
        i = i + 1;
    }
    proof {
        if i < lb {
            assert(b@.skip(i as int).len() > 0);
        }
    }
    i < lb
}

/// Lexicographic order is transitive.
pub proof fn lemma_lex_lt_trans(a: Seq<char>, b: Seq<char>, c: Seq<char>)
    requires
        lex_lt(a, b),
        lex_lt(b, c),
    ensures
        lex_lt(a, c),
    decreases a.len() + b.len() + c.len(),
{
    if a.len() == 0 || b.len() == 0 || c.len() == 0 {
    } else if a.first() == b.first() && b.first() == c.first() {
        lemma_lex_lt_trans(a.drop_first(), b.drop_first(), c.drop_first());
    }
}

/// Lexicographic order is connected: two distinct sequences compare one way
/// or the other.
pub proof fn lemma_lex_lt_connected(a: Seq<char>, b: Seq<char>)
    requires
        a != b,
    ensures
        lex_lt(a, b) || lex_lt(b, a),
    decreases a.len(),
{
    if a.len() == 0 && b.len() == 0 {
        assert(a =~= b);
    } else if a.len() > 0 && b.len() > 0 && a.first() == b.first() {
        if a.drop_first() == b.drop_first() {
            assert(a.drop_first().len() == b.drop_first().len());
            assert(a.len() == b.len());
            assert forall|i: int| 0 <= i < a.len() implies a[i] == b[i] by {
                if i > 0 {
                    assert(a[i] == a.drop_first()[i - 1]);
                    assert(b[i] == b.drop_first()[i - 1]);
                }
            }
            assert(a =~= b);
        } else {
            lemma_lex_lt_connected(a.drop_first(), b.drop_first());
        }
    }
}

/// Lexicographic order is irreflexive, and therefore asymmetric together
/// with transitivity.
pub proof fn lemma_lex_lt_irrefl(a: Seq<char>)
    ensures
        !lex_lt(a, a),
    decreases a.len(),
{
    if a.len() > 0 {
        lemma_lex_lt_irrefl(a.drop_first());
    }
}

/// The reflexive closure of lexicographic order is transitive.
pub proof fn lemma_lex_le_trans(a: Seq<char>, b: Seq<char>, c: Seq<char>)
    requires
        !lex_lt(b, a),
        !lex_lt(c, b),
    ensures
        !lex_lt(c, a),
{
    if lex_lt(c, a) {
        if b == c {
            assert(lex_lt(b, a));
        } else {
            lemma_lex_lt_connected(b, c);
            lemma_lex_lt_trans(b, c, a);
        }
    }
}

} // verus!

use vstd::prelude::*;
use vstd::utf8::{encode_utf8, encode_utf8_decode_utf8, decode_utf8};

verus! {

/// Lexicographic order on byte strings: `a` is a prefix of `b`, or the two
/// differ first at a position where `a` holds the smaller byte.
pub open spec fn lex_le(a: Seq<u8>, b: Seq<u8>) -> bool {
    ||| a.len() <= b.len() && (forall|j: int| 0 <= j < a.len() ==> a[j] == b[j])
    ||| exists|k: int|
        0 <= k < a.len() && k < b.len() && a[k] < b[k] && (forall|j: int|
            0 <= j < k ==> a[j] == b[j])
}

/// Case-sensitive ordinal order on text: the lexicographic order of its
/// UTF-8 bytes, which is also that of its code points.
pub open spec fn text_le(a: Seq<char>, b: Seq<char>) -> bool {
    lex_le(encode_utf8(a), encode_utf8(b))
}

/// Whether a name denotes a hidden entry: it starts with a dot.
pub open spec fn hidden(name: Seq<char>) -> bool {
    name.len() > 0 && name[0] == '.'
}

/// Whether a separator has to be put behind `parent` before a name is
/// appended: `parent` is not empty and does not already end in `/`.
pub open spec fn needs_separator(parent: Seq<char>) -> bool {
    let bytes = encode_utf8(parent);
    bytes.len() > 0 && bytes.last() != 0x2f
}

/// The path of the entry `name` inside the directory `parent`.
pub open spec fn joined(parent: Seq<char>, name: Seq<char>) -> Seq<char> {
    if needs_separator(parent) {
        parent + seq!['/'] + name
    } else {
        parent + name
    }
}

/// Two byte strings with a common prefix of length `k` and a smaller byte
/// in `a` at `k` are ordered.
pub proof fn lemma_lex_le_at(a: Seq<u8>, b: Seq<u8>, k: int)
    requires
        0 <= k < a.len(),
        k < b.len(),
        forall|j: int| 0 <= j < k ==> a[j] == b[j],
        a[k] != b[k],
    ensures
        lex_le(a, b) == (a[k] < b[k]),
{
    if a[k] < b[k] {
    } else {
        if lex_le(a, b) {
            if a.len() <= b.len() && (forall|j: int| 0 <= j < a.len() ==> a[j] == b[j]) {
                assert(a[k] == b[k]);
            } else {
                let m = choose|m: int|
                    0 <= m < a.len() && m < b.len() && a[m] < b[m] && (forall|j: int|
                        0 <= j < m ==> a[j] == b[j]);
                if m < k {
                    assert(a[m] == b[m]);
                } else if m > k {
                    assert(a[k] == b[k]);
                }
            }
        }
    }
}

/// Two byte strings that agree wherever both are defined are ordered by length.
pub proof fn lemma_lex_le_prefix(a: Seq<u8>, b: Seq<u8>)
    requires
        forall|j: int| 0 <= j < a.len() && j < b.len() ==> a[j] == b[j],
    ensures
        lex_le(a, b) == (a.len() <= b.len()),
{
    if lex_le(a, b) && a.len() > b.len() {
        let m = choose|m: int|
            0 <= m < a.len() && m < b.len() && a[m] < b[m] && (forall|j: int|
                0 <= j < m ==> a[j] == b[j]);
        assert(a[m] == b[m]);
    }
}

/// The first position at which two byte strings differ, or the length of
/// the shorter one where they do not.
pub open spec fn first_difference(a: Seq<u8>, b: Seq<u8>, from: int) -> int
    decreases a.len() - from,
{
    if 0 <= from < a.len() && from < b.len() && a[from] == b[from] {
        first_difference(a, b, from + 1)
    } else {
        from
    }
}

proof fn lemma_first_difference(a: Seq<u8>, b: Seq<u8>, from: int)
    requires
        0 <= from <= a.len(),
        from <= b.len(),
        forall|j: int| 0 <= j < from ==> a[j] == b[j],
    ensures
        from <= first_difference(a, b, from) <= a.len(),
        first_difference(a, b, from) <= b.len(),
        forall|j: int| 0 <= j < first_difference(a, b, from) ==> a[j] == b[j],
        first_difference(a, b, from) < a.len() && first_difference(a, b, from) < b.len()
            ==> a[first_difference(a, b, from)] != b[first_difference(a, b, from)],
    decreases a.len() - from,
{
    if from < a.len() && from < b.len() && a[from] == b[from] {
        lemma_first_difference(a, b, from + 1);
    }
}

/// Any two byte strings are ordered one way or the other.
pub proof fn lemma_lex_le_total(a: Seq<u8>, b: Seq<u8>)
    ensures
        lex_le(a, b) || lex_le(b, a),
{
    lemma_first_difference(a, b, 0);
    let k = first_difference(a, b, 0);
    if k < a.len() && k < b.len() {
        lemma_lex_le_at(a, b, k);
        lemma_lex_le_at(b, a, k);
    } else {
        lemma_lex_le_prefix(a, b);
        lemma_lex_le_prefix(b, a);
    }
}

/// The order on byte strings is transitive.
pub proof fn lemma_lex_le_transitive(a: Seq<u8>, b: Seq<u8>, c: Seq<u8>)
    requires
        lex_le(a, b),
        lex_le(b, c),
    ensures
        lex_le(a, c),
{
    lemma_first_difference(a, b, 0);
    lemma_first_difference(b, c, 0);
    let k = first_difference(a, b, 0);
    let m = first_difference(b, c, 0);
    if k < a.len() && k < b.len() {
        lemma_lex_le_at(a, b, k);
    } else {
        lemma_lex_le_prefix(a, b);
    }
    if m < b.len() && m < c.len() {
        lemma_lex_le_at(b, c, m);
    } else {
        lemma_lex_le_prefix(b, c);
    }
    if k < a.len() && k < b.len() {
        if m < b.len() && m < c.len() {
            let n = if k <= m { k } else { m };
            assert(forall|j: int| 0 <= j < n ==> a[j] == c[j]);
            assert(a[n] < c[n]);
            lemma_lex_le_at(a, c, n);
        } else {
            // b is a prefix of c, and a differs from b inside b
            assert(forall|j: int| 0 <= j < k ==> a[j] == c[j]);
            assert(a[k] < c[k]);
            lemma_lex_le_at(a, c, k);
        }
    } else {
        // a is a prefix of b
        if m < b.len() && m < c.len() {
            if m < a.len() {
                assert(forall|j: int| 0 <= j < m ==> a[j] == c[j]);
                assert(a[m] < c[m]);
                lemma_lex_le_at(a, c, m);
            } else {
                assert(forall|j: int| 0 <= j < a.len() ==> a[j] == c[j]);
                lemma_lex_le_prefix(a, c);
            }
        } else {
            assert(forall|j: int| 0 <= j < a.len() ==> a[j] == c[j]);
            lemma_lex_le_prefix(a, c);
        }
    }
}

/// Texts with the same UTF-8 bytes are the same text.
pub proof fn lemma_encoding_injective(a: Seq<char>, b: Seq<char>)
    requires
        encode_utf8(a) == encode_utf8(b),
    ensures
        a == b,
{
    encode_utf8_decode_utf8(a);
    encode_utf8_decode_utf8(b);
    assert(decode_utf8(encode_utf8(a)) == a);
    assert(decode_utf8(encode_utf8(b)) == b);
}

/// Whether `a` comes before `b`, or is equal to it, in case-sensitive
/// ordinal order.
pub fn is_text_le(a: &str, b: &str) -> (r: bool)
    ensures
        r == text_le(a@, b@),
{
    let x = a.as_bytes();
    let y = b.as_bytes();
    let mut i: usize = 0;
    while i < x.len() && i < y.len()
        invariant
            i <= x@.len(),
            i <= y@.len(),
            forall|j: int| 0 <= j < i ==> x@[j] == y@[j],
            x@ == encode_utf8(a@),
            y@ == encode_utf8(b@),
        decreases x@.len() - i,
    {
        if x[i] != y[i] {
            proof {
                lemma_lex_le_at(x@, y@, i as int);
            }
            return x[i] < y[i];
        }
        i += 1;
    }
    proof {
        lemma_lex_le_prefix(x@, y@);
    }
    x.len() <= y.len()
}

/// Whether two texts are the same.
pub fn is_same_text(a: &str, b: &str) -> (r: bool)
    ensures
        r == (a@ == b@),
{
    let x = a.as_bytes();
    let y = b.as_bytes();
    if x.len() != y.len() {
        return false;
    }
    let mut i: usize = 0;
    while i < x.len()
        invariant
            i <= x@.len(),
            x@.len() == y@.len(),
            forall|j: int| 0 <= j < i ==> x@[j] == y@[j],
            x@ == encode_utf8(a@),
            y@ == encode_utf8(b@),
        decreases x@.len() - i,
    {
        if x[i] != y[i] {
            return false;
        }
        i += 1;
    }
    proof {
        assert(x@ =~= y@);
        lemma_encoding_injective(a@, b@);
    }
    true
}

/// Whether a name denotes a hidden entry.
pub fn is_hidden(name: &str) -> (r: bool)
    ensures
        r == hidden(name@),
{
    !name.is_empty() && name.get_char(0) == '.'
}

/// The path of the entry `name` inside the directory `parent`.
pub fn join_path(parent: &str, name: &str) -> (path: String)
    ensures
        path@ == joined(parent@, name@),
{
    let bytes = parent.as_bytes();
    let n = bytes.len();
    let separate = n > 0 && bytes[n - 1] != 0x2f;
    let start = parent.to_owned();
    if separate {
        proof {
            reveal_strlit("/");
            assert("/"@ =~= seq!['/']);
        }
        start.concat("/").concat(name)
    } else {
        start.concat(name)
    }
}

} // verus!

//! Text as the index sees it: the order in which keys are kept, and the
//! few operations on names and paths that the index is built from.
//!
//! Keys are ordered as Rust orders strings: byte by byte over their UTF-8
//! encoding, a proper prefix before its extensions.

use vstd::prelude::*;
use vstd::utf8::*;

verus! {

/// `a` and `b` have the same first `k` bytes.
pub open spec fn agree(a: Seq<u8>, b: Seq<u8>, k: int) -> bool {
    &&& 0 <= k <= a.len()
    &&& k <= b.len()
    &&& forall|i: int| 0 <= i < k ==> a[i] == b[i]
}

/// Strict lexicographic order on byte sequences: at the first place where
/// `a` and `b` part, `a` has ended or holds the smaller byte.
pub open spec fn bytes_before(a: Seq<u8>, b: Seq<u8>) -> bool {
    exists|k: int| #[trigger] agree(a, b, k) && k < b.len() && (k == a.len() || a[k] < b[k])
}

/// Strict order on texts: the lexicographic order of their UTF-8 bytes.
pub open spec fn precedes(a: Seq<char>, b: Seq<char>) -> bool {
    bytes_before(encode_utf8(a), encode_utf8(b))
}

/// A sequence of texts in strictly ascending order.
pub open spec fn ascending(s: Seq<Seq<char>>) -> bool {
    forall|i: int, j: int| 0 <= i < j < s.len() ==> precedes(#[trigger] s[i], #[trigger] s[j])
}

/// A name is hidden when it begins with a dot.
pub open spec fn hidden(name: Seq<char>) -> bool {
    name.len() > 0 && name[0] == '.'
}

/// A directory path followed by a slash and a name.
pub open spec fn joined(path: Seq<char>, name: Seq<char>) -> Seq<char> {
    path + seq!['/'] + name
}

pub proof fn lemma_bytes_before_irreflexive(a: Seq<u8>)
    ensures
        !bytes_before(a, a),
{
}

pub proof fn lemma_bytes_before_transitive(a: Seq<u8>, b: Seq<u8>, c: Seq<u8>)
    requires
        bytes_before(a, b),
        bytes_before(b, c),
    ensures
        bytes_before(a, c),
{
    let k1 = choose|k: int| #[trigger] agree(a, b, k) && k < b.len() && (k == a.len() || a[k] < b[k]);
    let k2 = choose|k: int| #[trigger] agree(b, c, k) && k < c.len() && (k == b.len() || b[k] < c[k]);
    let k = if k1 <= k2 { k1 } else { k2 };
    assert(agree(a, c, k));
}

proof fn lemma_bytes_total_from(a: Seq<u8>, b: Seq<u8>, k: int)
    requires
        agree(a, b, k),
    ensures
        bytes_before(a, b) || a == b || bytes_before(b, a),
    decreases a.len() - k,
{
    if k == a.len() {
        if k == b.len() {
            assert(a =~= b);
        }
    } else if k == b.len() {
        assert(agree(b, a, k));
    } else if a[k] < b[k] {
    } else if b[k] < a[k] {
        assert(agree(b, a, k));
    } else {
        lemma_bytes_total_from(a, b, k + 1);
    }
}

/// Any two byte sequences are equal or one comes before the other.
pub proof fn lemma_bytes_before_total(a: Seq<u8>, b: Seq<u8>)
    ensures
        bytes_before(a, b) || a == b || bytes_before(b, a),
{
    assert(agree(a, b, 0));
    lemma_bytes_total_from(a, b, 0);
}

/// Texts with the same UTF-8 bytes are the same text.
pub proof fn lemma_encoding_injective(a: Seq<char>, b: Seq<char>)
    requires
        encode_utf8(a) == encode_utf8(b),
    ensures
        a == b,
{
    encode_utf8_decode_utf8(a);
    encode_utf8_decode_utf8(b);
}

/// No text precedes itself.
pub proof fn lemma_precedes_irreflexive(a: Seq<char>)
    ensures
        !precedes(a, a),
{
    lemma_bytes_before_irreflexive(encode_utf8(a));
}

/// The order on texts is transitive.
pub proof fn lemma_precedes_transitive(a: Seq<char>, b: Seq<char>, c: Seq<char>)
    requires
        precedes(a, b),
        precedes(b, c),
    ensures
        precedes(a, c),
{
    lemma_bytes_before_transitive(encode_utf8(a), encode_utf8(b), encode_utf8(c));
}

/// Of two texts at most one precedes the other.
pub proof fn lemma_precedes_asymmetric(a: Seq<char>, b: Seq<char>)
    requires
        precedes(a, b),
    ensures
        !precedes(b, a),
        a != b,
{
    lemma_precedes_irreflexive(a);
    if precedes(b, a) {
        lemma_precedes_transitive(a, b, a);
    }
}

/// The order on texts is total.
pub proof fn lemma_precedes_total(a: Seq<char>, b: Seq<char>)
    ensures
        precedes(a, b) || a == b || precedes(b, a),
{
    lemma_bytes_before_total(encode_utf8(a), encode_utf8(b));
    if encode_utf8(a) == encode_utf8(b) {
        lemma_encoding_injective(a, b);
    }
}

/// The place of one text relative to another.
#[derive(Clone, Copy, Debug, PartialEq, Eq, Structural)]
pub enum Rank {
    Before,
    Same,
    After,
}

/// What `compare(a, b)` answers.
pub open spec fn rank_of(a: Seq<char>, b: Seq<char>) -> Rank {
    if a == b {
        Rank::Same
    } else if precedes(a, b) {
        Rank::Before
    } else {
        Rank::After
    }
}

/// Compares two strings in the order of the index.
pub fn compare(a: &str, b: &str) -> (r: Rank)
    ensures
        r == rank_of(a@, b@),
        r is Before <==> precedes(a@, b@),
        r is Same <==> a@ == b@,
        r is After <==> precedes(b@, a@),
{
    let x = a.as_bytes();
    let y = b.as_bytes();
    proof {
        lemma_precedes_irreflexive(a@);
        if precedes(a@, b@) {
            lemma_precedes_asymmetric(a@, b@);
        }
        if precedes(b@, a@) {
            lemma_precedes_asymmetric(b@, a@);
        }
        lemma_precedes_total(a@, b@);
    }
    let mut i: usize = 0;
    while i < x.len() && i < y.len()
        invariant
            agree(x@, y@, i as int),
            x@ == encode_utf8(a@),
            y@ == encode_utf8(b@),
        decreases x.len() - i,
    {
        if x[i] < y[i] {
            return Rank::Before;
        }
        if x[i] > y[i] {
            assert(agree(y@, x@, i as int));
            return Rank::After;
        }
        i = i + 1;
    }
    if x.len() == y.len() {
        assert(x@ =~= y@);
        proof {
            lemma_encoding_injective(a@, b@);
        }
        Rank::Same
    } else if x.len() < y.len() {
        Rank::Before
    } else {
        assert(agree(y@, x@, i as int));
        Rank::After
    }
}

/// Tells whether two strings hold the same text.
pub fn same_text(a: &str, b: &str) -> (r: bool)
    ensures
        r == (a@ == b@),
{
    match compare(a, b) {
        Rank::Same => true,
        _ => false,
    }
}

/// Tells whether `name` begins with a dot.
pub fn is_hidden(name: &str) -> (r: bool)
    ensures
        r == hidden(name@),
{
    !name.is_empty() && name.get_char(0) == '.'
}

/// Joins a directory path and a name with a slash.
pub fn join(path: &str, name: &str) -> (r: String)
    ensures
        r@ == joined(path@, name@),
{
    let mut r = String::from_str(path);
    proof {
        reveal_strlit("/");
    }
    r.append("/");
    r.append(name);
    assert("/"@ =~= seq!['/']);
    r
}

} // verus!

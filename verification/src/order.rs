//! The order in which names are listed: byte by byte over their UTF-8
//! encoding, shorter first among a name and its extensions. Case matters.

use vstd::prelude::*;
use vstd::utf8::encode_utf8;

verus! {

/// Lexicographic "at most" on byte strings, read from position `i` on.
/// The two strings are taken to agree before `i`.
pub open spec fn le_from(a: Seq<u8>, b: Seq<u8>, i: int) -> bool
    decreases a.len() - i,
{
    if i < 0 || i >= a.len() {
        true
    } else if i >= b.len() {
        false
    } else if a[i] != b[i] {
        a[i] < b[i]
    } else {
        le_from(a, b, i + 1)
    }
}

/// Lexicographic "at most" on byte strings.
pub open spec fn bytes_le(a: Seq<u8>, b: Seq<u8>) -> bool {
    le_from(a, b, 0)
}

/// `a` is listed no later than `b`.
pub open spec fn name_le(a: Seq<char>, b: Seq<char>) -> bool {
    bytes_le(encode_utf8(a), encode_utf8(b))
}

/// How one name stands to another.
#[derive(Clone, Copy, Debug, PartialEq, Eq, Structural)]
pub enum Rank {
    Before,
    Same,
    After,
}

/// The rank that the order gives to `a` against `b`.
pub open spec fn rank_of(a: Seq<u8>, b: Seq<u8>) -> Rank {
    if !bytes_le(b, a) {
        Rank::Before
    } else if !bytes_le(a, b) {
        Rank::After
    } else {
        Rank::Same
    }
}

proof fn lemma_le_from_refl(a: Seq<u8>, i: int)
    ensures
        le_from(a, a, i),
    decreases a.len() - i,
{
    if 0 <= i < a.len() {
        lemma_le_from_refl(a, i + 1);
    }
}

proof fn lemma_le_from_total(a: Seq<u8>, b: Seq<u8>, i: int)
    ensures
        le_from(a, b, i) || le_from(b, a, i),
    decreases a.len() - i,
{
    if 0 <= i < a.len() && i < b.len() && a[i] == b[i] {
        lemma_le_from_total(a, b, i + 1);
    }
}

proof fn lemma_le_from_trans(a: Seq<u8>, b: Seq<u8>, c: Seq<u8>, i: int)
    requires
        le_from(a, b, i),
        le_from(b, c, i),
    ensures
        le_from(a, c, i),
    decreases a.len() - i,
{
    if 0 <= i < a.len() && a[i] == b[i] && b[i] == c[i] {
        lemma_le_from_trans(a, b, c, i + 1);
    }
}

proof fn lemma_le_from_antisym(a: Seq<u8>, b: Seq<u8>, i: int)
    requires
        0 <= i <= a.len(),
        i <= b.len(),
        le_from(a, b, i),
        le_from(b, a, i),
    ensures
        a.len() == b.len(),
        forall|k: int| i <= k < a.len() ==> a[k] == b[k],
    decreases a.len() - i,
{
    if i < a.len() {
        lemma_le_from_antisym(a, b, i + 1);
    }
}

/// Every name is listed no later than itself.
pub proof fn lemma_name_le_reflexive(a: Seq<char>)
    ensures
        name_le(a, a),
{
    lemma_le_from_refl(encode_utf8(a), 0);
}

/// Of two names, one is listed no later than the other.
pub proof fn lemma_name_le_total(a: Seq<char>, b: Seq<char>)
    ensures
        name_le(a, b) || name_le(b, a),
{
    lemma_le_from_total(encode_utf8(a), encode_utf8(b), 0);
}

/// The order of names is transitive.
pub proof fn lemma_name_le_transitive(a: Seq<char>, b: Seq<char>, c: Seq<char>)
    requires
        name_le(a, b),
        name_le(b, c),
    ensures
        name_le(a, c),
{
    lemma_le_from_trans(encode_utf8(a), encode_utf8(b), encode_utf8(c), 0);
}

/// Two names that are each listed no later than the other are one name.
pub proof fn lemma_name_le_antisymmetric(a: Seq<char>, b: Seq<char>)
    requires
        name_le(a, b),
        name_le(b, a),
    ensures
        a == b,
{
    let x = encode_utf8(a);
    let y = encode_utf8(b);
    lemma_le_from_antisym(x, y, 0);
    assert(x =~= y);
    vstd::utf8::encode_utf8_decode_utf8(a);
    vstd::utf8::encode_utf8_decode_utf8(b);
}

/// Ranks two byte strings in one pass.
pub fn rank_bytes(a: &[u8], b: &[u8]) -> (r: Rank)
    ensures
        r == rank_of(a@, b@),
        r == Rank::Same <==> a@ == b@,
{
    let mut i: usize = 0;
    while i < a.len() && i < b.len() && a[i] == b[i]
        invariant
            i <= a.len(),
            i <= b.len(),
            forall|k: int| 0 <= k < i ==> a@[k] == b@[k],
            bytes_le(a@, b@) == le_from(a@, b@, i as int),
            bytes_le(b@, a@) == le_from(b@, a@, i as int),
        decreases a.len() - i,
    {
        i = i + 1;
    }
    if i < a.len() && i < b.len() {
        assert(a@ != b@);
        if a[i] < b[i] {
            Rank::Before
        } else {
            Rank::After
        }
    } else if i < b.len() {
        assert(a@ != b@);
        Rank::Before
    } else if i < a.len() {
        assert(a@ != b@);
        Rank::After
    } else {
        assert(a@ =~= b@);
        Rank::Same
    }
}

/// Ranks two names.
pub fn rank_names(a: &str, b: &str) -> (r: Rank)
    ensures
        r == rank_of(encode_utf8(a@), encode_utf8(b@)),
        r == Rank::Same <==> a@ == b@,
        r != Rank::After <==> name_le(a@, b@),
{
    let r = rank_bytes(a.as_bytes(), b.as_bytes());
    proof {
        lemma_name_le_total(a@, b@);
        if r == Rank::Same {
            lemma_name_le_antisymmetric(a@, b@);
        }
    }
    r
}

} // verus!

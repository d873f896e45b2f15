//! Concatenation of string constants.
//!
//! Two byte buffers are joined into one whose first part is the first buffer
//! and whose second part is the second; texts are joined pairwise, from the
//! right, into a single text. Every result is stated over the views of the
//! inputs: `Seq<u8>` for bytes and `Seq<char>` for text.
use vstd::prelude::*;
use vstd::string::StringExecFns;
use vstd::utf8::encode_utf8;

verus! {

/// Joins two byte buffers: the result holds the bytes of `a`, then those of `b`.
pub fn concat(a: &[u8], b: &[u8]) -> (r: Vec<u8>)
    requires
        a@.len() + b@.len() <= usize::MAX,
    ensures
        r@ == a@ + b@,
{
    let mut out: Vec<u8> = Vec::with_capacity(a.len() + b.len());
    let mut i: usize = 0;
    while i < a.len()
        invariant
            i <= a@.len(),
            out@ == a@.subrange(0, i as int),
        decreases a@.len() - i,
    {
        out.push(a[i]);
        i = i + 1;
    }
    let mut j: usize = 0;
    while j < b.len()
        invariant
            j <= b@.len(),
            out@ == a@ + b@.subrange(0, j as int),
        decreases b@.len() - j,
    {
        out.push(b[j]);
        j = j + 1;
    }
    assert(a@.subrange(0, a@.len() as int) =~= a@);
    assert(b@.subrange(0, b@.len() as int) =~= b@);
    out
}

/// The views of a list of texts.
pub open spec fn views(parts: Seq<&str>) -> Seq<Seq<char>> {
    parts.map_values(|p: &str| p@)
}

/// The text made of `parts` one after another, reduced pairwise from the
/// right: the first part, then the joining of the rest.
pub open spec fn joined(parts: Seq<Seq<char>>) -> Seq<char>
    decreases parts.len(),
{
    if parts.len() == 0 {
        Seq::empty()
    } else {
        parts[0] + joined(parts.drop_first())
    }
}

/// Joins two texts: the result is `a` followed by `b`.
pub fn concat_str(a: &str, b: &str) -> (r: String)
    ensures
        r@ == a@ + b@,
{
    let mut out = a.to_owned();
    out.append(b);
    out
}

/// Joins any number of texts into one, pairwise from the right: each part,
/// from the last to the first, is put in front of what was built so far.
/// No parts give the empty text and one part gives that part.
pub fn const_concat(parts: &[&str]) -> (r: String)
    ensures
        r@ == joined(views(parts@)),
{
    let n = parts.len();
    let mut out = String::new();
    let mut i: usize = n;
    while i > 0
        invariant
            i <= n,
            n == parts@.len(),
            out@ == joined(views(parts@).subrange(i as int, n as int)),
        decreases i,
    {
        let ghost rest = views(parts@).subrange(i as int, n as int);
        i = i - 1;
        out = concat_str(parts[i], out.as_str());
        proof {
            let s = views(parts@).subrange(i as int, n as int);
            assert(s.drop_first() =~= rest);
        }
    }
    assert(views(parts@).subrange(0, n as int) =~= views(parts@));
    out
}

/// Joining two texts is their concatenation.
pub proof fn lemma_joined_pair(a: Seq<char>, b: Seq<char>)
    ensures
        joined(seq![a, b]) == a + b,
{
    lemma_joined_identity(b);
    assert(seq![a, b].drop_first() =~= seq![b]);
}

/// Joining a single text gives that text unchanged, and joining no texts
/// gives the empty text.
pub proof fn lemma_joined_identity(a: Seq<char>)
    ensures
        joined(seq![a]) == a,
        joined(Seq::<Seq<char>>::empty()) == Seq::<char>::empty(),
{
    assert(joined(Seq::<Seq<char>>::empty()) == Seq::<char>::empty());
    assert(seq![a].drop_first() =~= Seq::<Seq<char>>::empty());
    assert(a + Seq::<char>::empty() =~= a);
}

/// Joining a list split in two is joining each half and then the two results.
pub proof fn lemma_joined_split(p: Seq<Seq<char>>, q: Seq<Seq<char>>)
    ensures
        joined(p + q) == joined(p) + joined(q),
    decreases p.len(),
{
    if p.len() == 0 {
        assert(p + q =~= q);
        assert(Seq::<char>::empty() + joined(q) =~= joined(q));
    } else {
        assert((p + q).drop_first() =~= p.drop_first() + q);
        lemma_joined_split(p.drop_first(), q);
        assert(p[0] + (joined(p.drop_first()) + joined(q)) =~= (p[0] + joined(
            p.drop_first(),
        )) + joined(q));
    }
}

/// Joining three texts gives the same result whether the first two are joined
/// first (left to right) or the last two (right to left), and both equal the
/// joining of all three at once.
pub proof fn lemma_joined_associative(a: Seq<char>, b: Seq<char>, c: Seq<char>)
    ensures
        joined(seq![joined(seq![a, b]), c]) == joined(seq![a, joined(seq![b, c])]),
        joined(seq![a, joined(seq![b, c])]) == joined(seq![a, b, c]),
{
    lemma_joined_pair(a, b);
    lemma_joined_pair(b, c);
    lemma_joined_pair(a + b, c);
    lemma_joined_pair(a, b + c);
    assert((a + b) + c =~= a + (b + c));
    assert(seq![a, b, c] =~= seq![a] + seq![b, c]);
    lemma_joined_split(seq![a], seq![b, c]);
    lemma_joined_identity(a);
}

/// The UTF-8 bytes of a joined pair of texts are the bytes of the first text
/// followed by the bytes of the second: joining texts is joining their
/// encodings.
pub proof fn lemma_bytes_of_concat(a: Seq<char>, b: Seq<char>)
    ensures
        encode_utf8(a + b) == encode_utf8(a) + encode_utf8(b),
    decreases a.len(),
{
    if a.len() == 0 {
        assert(a + b =~= b);
        assert(Seq::<u8>::empty() + encode_utf8(b) =~= encode_utf8(b));
    } else {
        assert((a + b).drop_first() =~= a.drop_first() + b);
        assert((a + b)[0] == a[0]);
        lemma_bytes_of_concat(a.drop_first(), b);
        let e = vstd::utf8::encode_scalar(a[0] as u32);
        assert(e + (encode_utf8(a.drop_first()) + encode_utf8(b)) =~= (e + encode_utf8(
            a.drop_first(),
        )) + encode_utf8(b));
    }
}

} // verus!

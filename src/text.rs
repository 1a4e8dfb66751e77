use vstd::prelude::*;
use vstd::utf8::encode_utf8;

verus! {

/// Lexicographic order on byte strings: `a` comes strictly before `b`.
pub open spec fn bytes_lt(a: Seq<u8>, b: Seq<u8>) -> bool
    decreases a.len(),
{
    if b.len() == 0 {
        false
    } else if a.len() == 0 {
        true
    } else if a[0] != b[0] {
        a[0] < b[0]
    } else {
        bytes_lt(a.drop_first(), b.drop_first())
    }
}

/// Order of text values: that of their UTF-8 encodings, byte by byte.
pub open spec fn text_lt(a: Seq<char>, b: Seq<char>) -> bool {
    bytes_lt(encode_utf8(a), encode_utf8(b))
}

pub proof fn lemma_bytes_lt_asymmetric(a: Seq<u8>, b: Seq<u8>)
    ensures
        bytes_lt(a, b) ==> !bytes_lt(b, a),
    decreases a.len(),
{
    if a.len() > 0 && b.len() > 0 && a[0] == b[0] {
        lemma_bytes_lt_asymmetric(a.drop_first(), b.drop_first());
    }
}

/// Not-after is transitive.
pub proof fn lemma_bytes_le_transitive(a: Seq<u8>, b: Seq<u8>, c: Seq<u8>)
    requires
        !bytes_lt(b, a),
        !bytes_lt(c, b),
    ensures
        !bytes_lt(c, a),
    decreases a.len(),
{
    if a.len() > 0 && b.len() > 0 && c.len() > 0 && a[0] == b[0] && b[0] == c[0] {
        lemma_bytes_le_transitive(a.drop_first(), b.drop_first(), c.drop_first());
    }
}

/// Whether `a` comes strictly before `b` in the order of their UTF-8 bytes,
/// which is the order of `str`.
pub fn text_less(a: &String, b: &String) -> (r: bool)
    ensures
        r == text_lt(a@, b@),
{
    let x = a.as_str().as_bytes();
    let y = b.as_str().as_bytes();
    let ghost xa = encode_utf8(a@);
    let ghost yb = encode_utf8(b@);
    let mut i: usize = 0;
    assert(xa.skip(0) =~= xa);
    assert(yb.skip(0) =~= yb);
    while i < x.len() && i < y.len()
        invariant
            x@ == xa,
            y@ == yb,
            xa == encode_utf8(a@),
            yb == encode_utf8(b@),
            i <= x.len(),
            i <= y.len(),
            bytes_lt(xa, yb) == bytes_lt(xa.skip(i as int), yb.skip(i as int)),
        decreases x.len() - i,
    {
        assert(xa.skip(i as int)[0] == x@[i as int]);
        assert(yb.skip(i as int)[0] == y@[i as int]);
        if x[i] != y[i] {
            assert(xa.skip(i as int).len() > 0 && yb.skip(i as int).len() > 0);
            assert(bytes_lt(xa.skip(i as int), yb.skip(i as int)) == (x@[i as int] < y@[i as int]));
            return x[i] < y[i];
        }
        assert(xa.skip(i as int).drop_first() =~= xa.skip(i + 1));
        assert(yb.skip(i as int).drop_first() =~= yb.skip(i + 1));
        i = i + 1;
    }
    i < y.len()
}

} // verus!

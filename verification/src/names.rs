//! The order of component names: strings ordered lexicographically by their UTF-8 bytes, which
//! is how Rust orders `String`s.
use vstd::prelude::*;
use vstd::utf8::encode_utf8;
use vstd::utf8::encode_utf8_decode_utf8;

verus! {

/// `a` comes before `b` when they first differ at position `i` or later: either `a` ends there
/// while `b` goes on, or the byte of `a` there is the smaller one.
pub open spec fn bytes_less_from(a: Seq<u8>, b: Seq<u8>, i: int) -> bool
    decreases a.len() - i,
{
    if i < 0 || i >= a.len() {
        0 <= i < b.len()
    } else if i >= b.len() {
        false
    } else if a[i] != b[i] {
        a[i] < b[i]
    } else {
        bytes_less_from(a, b, i + 1)
    }
}

/// Lexicographic order of byte sequences.
pub open spec fn bytes_less(a: Seq<u8>, b: Seq<u8>) -> bool {
    bytes_less_from(a, b, 0)
}

/// The order of names: lexicographic order of their UTF-8 encodings.
pub open spec fn name_less(a: Seq<char>, b: Seq<char>) -> bool {
    bytes_less(encode_utf8(a), encode_utf8(b))
}

/// No sequence comes before itself.
pub proof fn lemma_bytes_less_irreflexive(a: Seq<u8>, i: int)
    requires
        0 <= i,
    ensures
        !bytes_less_from(a, a, i),
    decreases a.len() - i,
{
    if i < a.len() {
        lemma_bytes_less_irreflexive(a, i + 1);
    }
}

/// The order of byte sequences is transitive.
pub proof fn lemma_bytes_less_transitive(a: Seq<u8>, b: Seq<u8>, c: Seq<u8>, i: int)
    requires
        0 <= i,
        bytes_less_from(a, b, i),
        bytes_less_from(b, c, i),
    ensures
        bytes_less_from(a, c, i),
    decreases a.len() - i,
{
    if i < a.len() && i < b.len() && i < c.len() && a[i] == b[i] && b[i] == c[i] {
        lemma_bytes_less_transitive(a, b, c, i + 1);
    }
}

/// Two byte sequences that agree before position `i`, and neither of which comes before the
/// other from there on, are equal.
pub proof fn lemma_bytes_less_total(a: Seq<u8>, b: Seq<u8>, i: int)
    requires
        0 <= i <= a.len(),
        i <= b.len(),
        a.subrange(0, i) == b.subrange(0, i),
        !bytes_less_from(a, b, i),
        !bytes_less_from(b, a, i),
    ensures
        a == b,
    decreases a.len() - i,
{
    if i == a.len() {
        assert(a == a.subrange(0, i));
        assert(b == b.subrange(0, i));
    } else {
        assert(a.subrange(0, i + 1) == a.subrange(0, i).push(a[i]));
        assert(b.subrange(0, i + 1) == b.subrange(0, i).push(b[i]));
        lemma_bytes_less_total(a, b, i + 1);
    }
}

/// No name comes before itself, the order is transitive, and of two different names one comes
/// before the other.
pub proof fn lemma_name_order(a: Seq<char>, b: Seq<char>, c: Seq<char>)
    ensures
        !name_less(a, a),
        name_less(a, b) && name_less(b, c) ==> name_less(a, c),
        a != b ==> name_less(a, b) || name_less(b, a),
        name_less(a, b) ==> !name_less(b, a),
{
    lemma_bytes_less_irreflexive(encode_utf8(a), 0);
    if name_less(a, b) && name_less(b, c) {
        lemma_bytes_less_transitive(encode_utf8(a), encode_utf8(b), encode_utf8(c), 0);
    }
    if name_less(a, b) && name_less(b, a) {
        lemma_bytes_less_transitive(encode_utf8(a), encode_utf8(b), encode_utf8(a), 0);
    }
    if a != b && !name_less(a, b) && !name_less(b, a) {
        let ea = encode_utf8(a);
        let eb = encode_utf8(b);
        assert(ea.subrange(0, 0) == eb.subrange(0, 0));
        lemma_bytes_less_total(ea, eb, 0);
        encode_utf8_decode_utf8(a);
        encode_utf8_decode_utf8(b);
    }
}

/// Byte sequences that agree before `j` compare from `j` on as they compare lexicographically.
proof fn lemma_bytes_less_from_agreeing(a: Seq<u8>, b: Seq<u8>, j: int)
    requires
        0 <= j <= a.len(),
        j <= b.len(),
        a.take(j) == b.take(j),
    ensures
        bytes_less_from(a, b, j) <==> ((a.len() < b.len() && a == b.take(a.len() as int)) || exists|
            i: int,
        | 0 <= i < a.len() && i < b.len() && a.take(i) == b.take(i) && #[trigger] a[i] < b[i]),
    decreases a.len() - j,
{
    assert forall|i: int| 0 <= i < j implies #[trigger] a[i] == b[i] by {
        assert(a.take(j)[i] == a[i]);
        assert(b.take(j)[i] == b[i]);
        assert(a.take(j)[i] == b.take(j)[i]);
    }
    if j == a.len() {
        assert(a =~= a.take(j));
    } else if j == b.len() {
        if a.len() < b.len() {
            assert(false);
        }
    } else if a[j] != b[j] {
        if a[j] < b[j] {
            assert(a.take(j) == b.take(j));
        } else {
            if a.len() < b.len() && a == b.take(a.len() as int) {
                assert(a[j] == b.take(a.len() as int)[j]);
            }
            assert forall|i: int| 0 <= i < a.len() && i < b.len() && a.take(i) == b.take(i) implies !(
            #[trigger] a[i] < b[i]) by {
                if i > j {
                    assert(a.take(i)[j] == b.take(i)[j]);
                }
            }
        }
    } else {
        assert(a.take(j + 1) =~= b.take(j + 1)) by {
            assert forall|i: int| 0 <= i < j + 1 implies #[trigger] a.take(j + 1)[i] == b.take(j + 1)[i] by {
                if i < j {
                    assert(a[i] == b[i]);
                }
            }
        }
        lemma_bytes_less_from_agreeing(a, b, j + 1);
    }
}

/// The order of byte sequences is the lexicographic one: `a` comes before `b` when it is a
/// proper prefix of `b`, or when at the first position where they differ the byte of `a` is
/// the smaller one.
pub proof fn lemma_bytes_less_is_lexicographic(a: Seq<u8>, b: Seq<u8>)
    ensures
        bytes_less(a, b) <==> ((a.len() < b.len() && a == b.take(a.len() as int)) || exists|i: int|
            0 <= i < a.len() && i < b.len() && a.take(i) == b.take(i) && #[trigger] a[i] < b[i]),
{
    assert(a.take(0) =~= b.take(0));
    lemma_bytes_less_from_agreeing(a, b, 0);
}

/// Whether name `a` comes before name `b`, as Rust orders strings.
pub fn name_before(a: &String, b: &String) -> (r: bool)
    ensures
        r == name_less(a@, b@),
{
    let x: &[u8] = a.as_str().as_bytes();
    let y: &[u8] = b.as_str().as_bytes();
    let mut i: usize = 0;
    while i < x.len() && i < y.len() && x[i] == y[i]
        invariant
            x@ == encode_utf8(a@),
            y@ == encode_utf8(b@),
            i <= x.len(),
            i <= y.len(),
            bytes_less_from(x@, y@, i as int) == name_less(a@, b@),
        decreases x.len() - i,
    {
        i = i + 1;
    }
    if i >= x.len() {
        i < y.len()
    } else if i >= y.len() {
        false
    } else {
        x[i] < y[i]
    }
}

} // verus!

//! The order in which component names are kept and listed: the order of
//! `str`, which compares the UTF-8 encodings byte by byte.
use vstd::prelude::*;
use vstd::utf8::encode_utf8;

verus! {

/// `a` and `b` agree before position `i`, and there `a` is the smaller:
/// either `a` ends at `i` while `b` goes on, or both go on and `a[i] < b[i]`.
pub open spec fn bytes_lt_at(a: Seq<u8>, b: Seq<u8>, i: int) -> bool {
    &&& 0 <= i <= a.len()
    &&& i <= b.len()
    &&& forall|j: int| 0 <= j < i ==> a[j] == b[j]
    &&& if i == a.len() {
        i < b.len()
    } else {
        i < b.len() && a[i] < b[i]
    }
}

/// Lexicographic order on byte strings.
pub open spec fn bytes_lt(a: Seq<u8>, b: Seq<u8>) -> bool {
    exists|i: int| #[trigger] bytes_lt_at(a, b, i)
}

/// The order of names: that of their UTF-8 encodings, which is the order of
/// `str` in Rust.
pub open spec fn name_lt(a: Seq<char>, b: Seq<char>) -> bool {
    bytes_lt(encode_utf8(a), encode_utf8(b))
}

/// A sequence of names in strictly increasing order (so no name occurs twice).
pub open spec fn sorted_names(s: Seq<Seq<char>>) -> bool {
    forall|i: int, j: int| 0 <= i < j < s.len() ==> name_lt(#[trigger] s[i], #[trigger] s[j])
}

proof fn lemma_bytes_trichotomy_from(a: Seq<u8>, b: Seq<u8>, i: int)
    requires
        a != b,
        0 <= i <= a.len(),
        i <= b.len(),
        forall|j: int| 0 <= j < i ==> a[j] == b[j],
    ensures
        bytes_lt(a, b) || bytes_lt(b, a),
    decreases a.len() - i,
{
    if i == a.len() || i == b.len() {
        if a.len() == b.len() {
            assert(a =~= b);
        } else if i == a.len() {
            assert(bytes_lt_at(a, b, i));
        } else {
            assert(bytes_lt_at(b, a, i));
        }
    } else if a[i] != b[i] {
        if a[i] < b[i] {
            assert(bytes_lt_at(a, b, i));
        } else {
            assert(bytes_lt_at(b, a, i));
        }
    } else {
        lemma_bytes_trichotomy_from(a, b, i + 1);
    }
}

pub proof fn lemma_bytes_lt_transitive(a: Seq<u8>, b: Seq<u8>, c: Seq<u8>)
    requires
        bytes_lt(a, b),
        bytes_lt(b, c),
    ensures
        bytes_lt(a, c),
{
    let i = choose|i: int| bytes_lt_at(a, b, i);
    let j = choose|j: int| bytes_lt_at(b, c, j);
    let m = if i < j { i } else { j };
    assert(bytes_lt_at(a, c, m));
}

pub proof fn lemma_bytes_lt_asymmetric(a: Seq<u8>, b: Seq<u8>)
    requires
        bytes_lt(a, b),
    ensures
        !bytes_lt(b, a),
{
    if bytes_lt(b, a) {
        lemma_bytes_lt_transitive(a, b, a);
    }
}

/// No name is smaller than itself.
pub proof fn lemma_name_lt_irreflexive(a: Seq<char>)
    ensures
        !name_lt(a, a),
{
}

/// The order of names is transitive.
pub proof fn lemma_name_lt_transitive(a: Seq<char>, b: Seq<char>, c: Seq<char>)
    requires
        name_lt(a, b),
        name_lt(b, c),
    ensures
        name_lt(a, c),
{
    lemma_bytes_lt_transitive(encode_utf8(a), encode_utf8(b), encode_utf8(c));
}

/// Of two different names, exactly one is the smaller.
pub proof fn lemma_name_trichotomy(a: Seq<char>, b: Seq<char>)
    ensures
        a == b || name_lt(a, b) || name_lt(b, a),
        !(name_lt(a, b) && name_lt(b, a)),
{
    if name_lt(a, b) {
        lemma_bytes_lt_asymmetric(encode_utf8(a), encode_utf8(b));
    }
    if a != b {
        vstd::utf8::encode_utf8_decode_utf8(a);
        vstd::utf8::encode_utf8_decode_utf8(b);
        lemma_bytes_trichotomy_from(encode_utf8(a), encode_utf8(b), 0);
    }
}

/// A strictly sorted sequence of names holds no name twice.
pub proof fn lemma_sorted_no_duplicates(s: Seq<Seq<char>>)
    requires
        sorted_names(s),
    ensures
        s.no_duplicates(),
{
    assert forall|i: int, j: int| 0 <= i < s.len() && 0 <= j < s.len() && i != j implies s[i]
        != s[j] by {
        if i < j {
            assert(name_lt(s[i], s[j]));
        } else {
            assert(name_lt(s[j], s[i]));
        }
    }
}

/// A strictly sorted sequence that holds exactly the members of `x` has as
/// many items as `x`, which is finite.
pub proof fn lemma_sorted_names_len(s: Seq<Seq<char>>, x: Set<Seq<char>>)
    requires
        sorted_names(s),
        forall|k: Seq<char>| s.contains(k) <==> x.contains(k),
    ensures
        x.finite(),
        x.len() == s.len(),
{
    lemma_sorted_no_duplicates(s);
    assert(s.to_set() =~= x);
    s.unique_seq_to_set();
}

/// Whether `a` comes before `b` in the order of names.
pub fn name_less(a: &str, b: &str) -> (r: bool)
    ensures
        r == name_lt(a@, b@),
{
    let x = a.as_bytes();
    let y = b.as_bytes();
    let ghost xs = x@;
    let ghost ys = y@;
    assert(xs == encode_utf8(a@));
    assert(ys == encode_utf8(b@));
    let mut i: usize = 0;
    while i < x.len() && i < y.len()
        invariant
            x@ == xs,
            y@ == ys,
            xs == encode_utf8(a@),
            ys == encode_utf8(b@),
            i <= xs.len(),
            i <= ys.len(),
            forall|j: int| 0 <= j < i ==> xs[j] == ys[j],
        decreases xs.len() - i,
    {
        if x[i] != y[i] {
            proof {
                if xs[i as int] < ys[i as int] {
                    assert(bytes_lt_at(xs, ys, i as int));
                } else {
                    assert forall|k: int| !bytes_lt_at(xs, ys, k) by {
                        if bytes_lt_at(xs, ys, k) {
                            if k > i {
                                assert(xs[i as int] == ys[i as int]);
                            } else if k < i {
                                assert(xs[k] == ys[k]);
                            }
                        }
                    }
                }
            }
            return x[i] < y[i];
        }
        i = i + 1;
    }
    proof {
        if i < ys.len() {
            assert(bytes_lt_at(xs, ys, i as int));
        } else {
            assert forall|k: int| !bytes_lt_at(xs, ys, k) by {
                if bytes_lt_at(xs, ys, k) && k < i {
                    assert(xs[k] == ys[k]);
                }
            }
        }
    }
    x.len() < y.len()
}

} // verus!

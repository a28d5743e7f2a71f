use vstd::prelude::*;
use vstd::utf8::encode_utf8;
use std::cmp::Ordering;

verus! {

/// The bytes of `s` from index `i` on.
pub open spec fn bytes_from(s: Seq<u8>, i: usize) -> Seq<u8> {
    s.skip(i as int)
}

/// Lexicographic order of byte strings: the first differing byte decides,
/// and a proper prefix comes first.
pub open spec fn bytes_order(a: Seq<u8>, b: Seq<u8>) -> Ordering
    decreases a.len(),
{
    if a.len() == 0 {
        if b.len() == 0 {
            Ordering::Equal
        } else {
            Ordering::Less
        }
    } else if b.len() == 0 {
        Ordering::Greater
    } else if a[0] < b[0] {
        Ordering::Less
    } else if a[0] > b[0] {
        Ordering::Greater
    } else {
        bytes_order(a.drop_first(), b.drop_first())
    }
}

/// The order of two texts: that of their UTF-8 bytes, as `str` orders.
pub open spec fn text_order(a: Seq<char>, b: Seq<char>) -> Ordering {
    bytes_order(encode_utf8(a), encode_utf8(b))
}

/// The order of two numbers.
pub open spec fn number_order(a: u64, b: u64) -> Ordering {
    if a < b {
        Ordering::Less
    } else if a == b {
        Ordering::Equal
    } else {
        Ordering::Greater
    }
}

/// `o` turned around: `Less` and `Greater` swap.
pub open spec fn flipped(o: Ordering) -> Ordering {
    match o {
        Ordering::Less => Ordering::Greater,
        Ordering::Equal => Ordering::Equal,
        Ordering::Greater => Ordering::Less,
    }
}

/// The byte of `s` at index `i`.
pub open spec fn byte_at(s: Seq<u8>, i: usize) -> u8 {
    s[i as int]
}

/// The index after `i`.
pub open spec fn next_index(i: usize) -> usize {
    (i + 1) as usize
}

proof fn lemma_bytes_from_facts(a: Seq<u8>, i: usize)
    requires
        i <= a.len(),
        a.len() <= usize::MAX,
    ensures
        bytes_from(a, i).len() == a.len() - i,
        i < a.len() ==> bytes_from(a, i)[0] == byte_at(a, i),
        i < a.len() ==> bytes_from(a, i).drop_first() == bytes_from(a, next_index(i)),
        i < a.len() ==> next_index(i) == i + 1,
        bytes_from(a, 0) == a,
{
    assert(a.skip(0) =~= a);
    if i < a.len() {
        assert(bytes_from(a, i).drop_first() =~= bytes_from(a, next_index(i)));
    }
}

proof fn lemma_bytes_order_step(a: Seq<u8>, b: Seq<u8>, i: usize)
    requires
        i < a.len(),
        i < b.len(),
        a.len() <= usize::MAX,
        b.len() <= usize::MAX,
        byte_at(a, i) == byte_at(b, i),
    ensures
        bytes_order(bytes_from(a, i), bytes_from(b, i)) == bytes_order(bytes_from(a, next_index(i)), bytes_from(b, next_index(i))),
{
    lemma_bytes_from_facts(a, i);
    lemma_bytes_from_facts(b, i);
}

/// The byte order is a total order: turning the arguments around turns the
/// result around, only equal strings are equal, and it is transitive.
pub proof fn law_bytes_order(a: Seq<u8>, b: Seq<u8>, c: Seq<u8>)
    ensures
        bytes_order(b, a) == flipped(bytes_order(a, b)),
        (bytes_order(a, b) == Ordering::Equal) == (a == b),
        bytes_order(a, b) != Ordering::Greater && bytes_order(b, c) != Ordering::Greater
            ==> bytes_order(a, c) != Ordering::Greater,
    decreases a.len(),
{
    if a.len() > 0 && b.len() > 0 {
        if c.len() > 0 {
            law_bytes_order(a.drop_first(), b.drop_first(), c.drop_first());
        } else {
            law_bytes_order(a.drop_first(), b.drop_first(), c);
        }
        if a[0] == b[0] && a.drop_first() == b.drop_first() {
            assert(a =~= seq![a[0]] + a.drop_first());
            assert(b =~= seq![b[0]] + b.drop_first());
        }
    }
    if a == b && a.len() > 0 {
        assert(a.drop_first() == b.drop_first());
    }
    if a.len() == 0 && b.len() == 0 {
        assert(a =~= b);
    }
}

/// Byte strings are ordered by their first differing byte, compared as
/// numbers: where `a` and `b` agree on their first `i` bytes, a smaller byte
/// at `i` puts `a` first and a larger one puts it last; where one of them
/// ends at `i`, the shorter comes first, and two strings that both end there
/// are equal.
pub proof fn law_bytes_order_first_difference(a: Seq<u8>, b: Seq<u8>, i: int)
    requires
        0 <= i <= a.len(),
        i <= b.len(),
        a.take(i) == b.take(i),
    ensures
        i < a.len() && i < b.len() && a[i] < b[i] ==> bytes_order(a, b) == Ordering::Less,
        i < a.len() && i < b.len() && a[i] > b[i] ==> bytes_order(a, b) == Ordering::Greater,
        i == a.len() && i < b.len() ==> bytes_order(a, b) == Ordering::Less,
        i < a.len() && i == b.len() ==> bytes_order(a, b) == Ordering::Greater,
        i == a.len() && i == b.len() ==> bytes_order(a, b) == Ordering::Equal,
    decreases i,
{
    if i > 0 {
        assert(a[0] == a.take(i)[0] && b[0] == b.take(i)[0]);
        let (x, y) = (a.drop_first(), b.drop_first());
        assert(x.take(i - 1) =~= a.take(i).drop_first());
        assert(y.take(i - 1) =~= b.take(i).drop_first());
        law_bytes_order_first_difference(x, y, i - 1);
        if i < a.len() {
            assert(x[i - 1] == a[i]);
        }
        if i < b.len() {
            assert(y[i - 1] == b[i]);
        }
    }
}

/// Texts are ordered by the bytes of their UTF-8 encodings: where the
/// encodings agree on their first `i` bytes, a smaller byte at `i` puts `a`
/// first and a larger one last; a text whose encoding ends there comes
/// before one whose encoding goes on.
pub proof fn law_text_order_bytes(a: Seq<char>, b: Seq<char>, i: int)
    requires
        0 <= i <= encode_utf8(a).len(),
        i <= encode_utf8(b).len(),
        encode_utf8(a).take(i) == encode_utf8(b).take(i),
    ensures
        i < encode_utf8(a).len() && i < encode_utf8(b).len() && encode_utf8(a)[i] < encode_utf8(b)[i]
            ==> text_order(a, b) == Ordering::Less,
        i < encode_utf8(a).len() && i < encode_utf8(b).len() && encode_utf8(a)[i] > encode_utf8(b)[i]
            ==> text_order(a, b) == Ordering::Greater,
        i == encode_utf8(a).len() && i < encode_utf8(b).len() ==> text_order(a, b) == Ordering::Less,
        i < encode_utf8(a).len() && i == encode_utf8(b).len() ==> text_order(a, b) == Ordering::Greater,
        text_order(a, b) == Ordering::Equal <==> a == b,
{
    law_bytes_order_first_difference(encode_utf8(a), encode_utf8(b), i);
    law_bytes_order(encode_utf8(a), encode_utf8(b), encode_utf8(a));
    if encode_utf8(a) == encode_utf8(b) {
        vstd::utf8::encode_utf8_decode_utf8(a);
        vstd::utf8::encode_utf8_decode_utf8(b);
    }
}

/// Numbers are ordered as integers.
pub proof fn law_number_order(a: u64, b: u64)
    ensures
        (number_order(a, b) == Ordering::Less) == (a < b),
        (number_order(a, b) == Ordering::Equal) == (a == b),
        (number_order(a, b) == Ordering::Greater) == (a > b),
{
}

/// The order of the texts `a` and `b`, as `str` orders them.
pub fn text_compare(a: &str, b: &str) -> (res: Ordering)
    ensures
        res == text_order(a@, b@),
{
    let x = a.as_bytes();
    let y = b.as_bytes();
    let mut i: usize = 0;
    assert(x.len() == x@.len() && y.len() == y@.len());
    proof {
        lemma_bytes_from_facts(x@, 0);
        lemma_bytes_from_facts(y@, 0);
    }
    while i < x.len() && i < y.len()
        invariant
            i <= x.len(),
            i <= y.len(),
            x.len() == x@.len(),
            y.len() == y@.len(),
            x@ == encode_utf8(a@),
            y@ == encode_utf8(b@),
            text_order(a@, b@) == bytes_order(bytes_from(x@, i), bytes_from(y@, i)),
        decreases x.len() - i,
    {
        proof {
            lemma_bytes_from_facts(x@, i);
            lemma_bytes_from_facts(y@, i);
        }
        let xi = x[i];
        let yi = y[i];
        assert(xi == byte_at(x@, i));
        assert(yi == byte_at(y@, i));
        if xi < yi {
            return Ordering::Less;
        }
        if xi > yi {
            return Ordering::Greater;
        }
        proof {
            lemma_bytes_order_step(x@, y@, i);
        }
        i = i + 1;
    }
    proof {
        lemma_bytes_from_facts(x@, i);
        lemma_bytes_from_facts(y@, i);
    }
    if i < y.len() {
        Ordering::Less
    } else if i < x.len() {
        Ordering::Greater
    } else {
        Ordering::Equal
    }
}

/// The order of the numbers `a` and `b`.
pub fn number_compare(a: u64, b: u64) -> (res: Ordering)
    ensures
        res == number_order(a, b),
{
    if a < b {
        Ordering::Less
    } else if a == b {
        Ordering::Equal
    } else {
        Ordering::Greater
    }
}

/// `o` turned around.
pub fn flip(o: Ordering) -> (res: Ordering)
    ensures
        res == flipped(o),
{
    match o {
        Ordering::Less => Ordering::Greater,
        Ordering::Equal => Ordering::Equal,
        Ordering::Greater => Ordering::Less,
    }
}

} // verus!

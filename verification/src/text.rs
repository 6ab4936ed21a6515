//! Small operations on text.

use vstd::prelude::*;
use vstd::utf8::encode_utf8;

verus! {

/// Texts are ordered by their UTF-8 bytes, the first difference deciding; a
/// text comes before its continuations.
pub open spec fn bytes_at_most(a: Seq<u8>, b: Seq<u8>) -> bool
    decreases a.len(),
{
    if a.len() == 0 {
        true
    } else if b.len() == 0 {
        false
    } else if a[0] != b[0] {
        a[0] < b[0]
    } else {
        bytes_at_most(a.drop_first(), b.drop_first())
    }
}

/// `a` sorts no later than `b`.
pub open spec fn text_at_most(a: Seq<char>, b: Seq<char>) -> bool {
    bytes_at_most(encode_utf8(a), encode_utf8(b))
}

pub proof fn lemma_bytes_reflexive(a: Seq<u8>)
    ensures
        bytes_at_most(a, a),
    decreases a.len(),
{
    if a.len() > 0 {
        lemma_bytes_reflexive(a.drop_first());
    }
}

pub proof fn lemma_bytes_total(a: Seq<u8>, b: Seq<u8>)
    ensures
        bytes_at_most(a, b) || bytes_at_most(b, a),
    decreases a.len(),
{
    if a.len() > 0 && b.len() > 0 {
        lemma_bytes_total(a.drop_first(), b.drop_first());
    }
}

pub proof fn lemma_bytes_transitive(a: Seq<u8>, b: Seq<u8>, c: Seq<u8>)
    requires
        bytes_at_most(a, b),
        bytes_at_most(b, c),
    ensures
        bytes_at_most(a, c),
    decreases a.len(),
{
    if a.len() > 0 && a[0] == b[0] && b[0] == c[0] {
        lemma_bytes_transitive(a.drop_first(), b.drop_first(), c.drop_first());
    }
}

/// Every text sorts no later than itself.
pub proof fn text_order_reflexive(a: Seq<char>)
    ensures
        text_at_most(a, a),
{
    lemma_bytes_reflexive(encode_utf8(a));
}

/// Of two texts one sorts no later than the other.
pub proof fn text_order_total(a: Seq<char>, b: Seq<char>)
    ensures
        text_at_most(a, b) || text_at_most(b, a),
{
    lemma_bytes_total(encode_utf8(a), encode_utf8(b));
}

/// The order of texts is transitive.
pub proof fn text_order_transitive(a: Seq<char>, b: Seq<char>, c: Seq<char>)
    requires
        text_at_most(a, b),
        text_at_most(b, c),
    ensures
        text_at_most(a, c),
{
    lemma_bytes_transitive(encode_utf8(a), encode_utf8(b), encode_utf8(c));
}

/// Whether `a` sorts no later than `b`.
pub fn sorts_no_later(a: &str, b: &str) -> (r: bool)
    ensures
        r == text_at_most(a@, b@),
{
    let x = a.as_bytes();
    let y = b.as_bytes();
    let mut i: usize = 0;
    assert(x@.skip(0) =~= x@);
    assert(y@.skip(0) =~= y@);
    while i < x.len() && i < y.len() && x[i] == y[i]
        invariant
            i <= x@.len(),
            i <= y@.len(),
            bytes_at_most(x@, y@) == bytes_at_most(x@.skip(i as int), y@.skip(i as int)),
        decreases x@.len() - i,
    {
        proof {
            assert(x@.skip(i as int).drop_first() =~= x@.skip(i + 1));
            assert(y@.skip(i as int).drop_first() =~= y@.skip(i + 1));
        }
        i = i + 1;
    }
    if i == x.len() {
        true
    } else if i == y.len() {
        false
    } else {
        x[i] < y[i]
    }
}

/// Whether two texts are the same.
pub fn same(a: &str, b: &str) -> (r: bool)
    ensures
        r == (a@ == b@),
{
    a.to_owned() == b.to_owned()
}

/// Whether `a` begins with `head`.
pub fn begins_with(a: &str, head: &str) -> (r: bool)
    ensures
        r == head@.is_prefix_of(a@),
{
    let n: usize = head.unicode_len();
    if a.unicode_len() < n {
        return false;
    }
    same(a.substring_char(0, n), head)
}

/// Whether `a` ends with `tail`.
pub fn ends_with(a: &str, tail: &str) -> (r: bool)
    ensures
        r == tail@.is_suffix_of(a@),
{
    let n: usize = tail.unicode_len();
    let m: usize = a.unicode_len();
    if m < n {
        return false;
    }
    same(a.substring_char(m - n, m), tail)
}

/// Three texts put together.
pub fn join(a: &str, b: &str, c: &str) -> (r: String)
    ensures
        r@ == a@ + b@ + c@,
{
    let mut r = String::from_str(a);
    r.append(b);
    r.append(c);
    r
}

/// Two texts, one after the other.
pub fn pair(a: &str, b: &str) -> (r: String)
    ensures
        r@ == a@ + b@,
{
    let mut r = String::from_str(a);
    r.append(b);
    r
}

} // verus!

//! Facts about strings as sequences of characters and as UTF-8 bytes.
//!
//! Keys are registered and measured in bytes, while the matching rule is a rule about characters:
//! a key matches every request id that starts with it. The lemmas here relate the two readings.
use vstd::prelude::*;
use vstd::utf8::*;

verus! {

/// The number of bytes in the UTF-8 encoding of `s`.
pub open spec fn byte_len(s: Seq<char>) -> nat {
    encode_utf8(s).len()
}

/// The first character of a sequence is encoded first and takes at least one byte.
proof fn lemma_encode_step(s: Seq<char>)
    requires
        s.len() > 0,
    ensures
        encode_utf8(s) == encode_scalar(s[0] as u32) + encode_utf8(s.drop_first()),
        length_of_first_scalar(encode_utf8(s)) == encode_scalar(s[0] as u32).len(),
        pop_first_scalar(encode_utf8(s)) == encode_utf8(s.drop_first()),
        encode_scalar(s[0] as u32).len() > 0,
{
    encode_utf8_first_scalar(s);
    assert(pop_first_scalar(encode_utf8(s)) =~= encode_utf8(s.drop_first()));
}

/// Encoding distributes over concatenation.
pub proof fn lemma_encode_concat(a: Seq<char>, b: Seq<char>)
    ensures
        encode_utf8(a + b) == encode_utf8(a) + encode_utf8(b),
    decreases a.len(),
{
    if a.len() == 0 {
        assert(a + b =~= b);
        assert(encode_utf8(a) + encode_utf8(b) =~= encode_utf8(b));
    } else {
        assert((a + b).drop_first() =~= a.drop_first() + b);
        lemma_encode_concat(a.drop_first(), b);
        assert(encode_utf8(a + b) =~= encode_utf8(a) + encode_utf8(b));
    }
}

/// The end of the encoding of `a` is a character boundary in the encoding of `a + b`.
proof fn lemma_concat_boundary(a: Seq<char>, b: Seq<char>)
    ensures
        is_char_boundary(encode_utf8(a + b), byte_len(a) as int),
    decreases a.len(),
{
    encode_utf8_valid_utf8(a + b);
    if a.len() > 0 {
        lemma_encode_concat(a, b);
        lemma_encode_step(a);
        lemma_encode_step(a + b);
        assert((a + b).drop_first() =~= a.drop_first() + b);
        lemma_concat_boundary(a.drop_first(), b);
    }
}

/// A prefix in characters is a prefix in bytes that ends at a character boundary.
pub proof fn lemma_prefix_bytes(p: Seq<char>, s: Seq<char>)
    requires
        p.is_prefix_of(s),
    ensures
        byte_len(p) <= byte_len(s),
        is_char_boundary(encode_utf8(s), byte_len(p) as int),
        encode_utf8(s).subrange(0, byte_len(p) as int) == encode_utf8(p),
        p.len() < s.len() ==> byte_len(p) < byte_len(s),
{
    let rest = s.subrange(p.len() as int, s.len() as int);
    assert(s =~= p + rest);
    lemma_encode_concat(p, rest);
    lemma_concat_boundary(p, rest);
    assert(encode_utf8(s).subrange(0, byte_len(p) as int) =~= encode_utf8(p));
    if rest.len() > 0 {
        lemma_encode_step(rest);
    }
}

/// A prefix in bytes that ends at a character boundary is a prefix in characters.
pub proof fn lemma_bytes_prefix(p: Seq<char>, s: Seq<char>, n: int)
    requires
        0 <= n <= byte_len(s),
        is_char_boundary(encode_utf8(s), n),
        encode_utf8(p) == encode_utf8(s).subrange(0, n),
    ensures
        p.is_prefix_of(s),
        byte_len(p) == n,
{
    let bytes = encode_utf8(s);
    encode_utf8_valid_utf8(s);
    valid_utf8_split(bytes, n);
    decode_utf8_split(bytes, n);
    encode_utf8_decode_utf8(s);
    encode_utf8_decode_utf8(p);
    assert(s == p + decode_utf8(bytes.subrange(n, bytes.len() as int)));
    assert(p =~= s.subrange(0, p.len() as int));
}

/// Two prefixes of one string are ordered alike by characters and by bytes.
pub proof fn lemma_prefix_order(p: Seq<char>, q: Seq<char>, s: Seq<char>)
    requires
        p.is_prefix_of(s),
        q.is_prefix_of(s),
    ensures
        p.len() <= q.len() <==> byte_len(p) <= byte_len(q),
        byte_len(p) == byte_len(q) ==> p == q,
{
    if p.len() <= q.len() {
        assert(p.is_prefix_of(q)) by {
            assert(p =~= q.subrange(0, p.len() as int));
        }
        lemma_prefix_bytes(p, q);
    } else {
        assert(q.is_prefix_of(p)) by {
            assert(q =~= p.subrange(0, q.len() as int));
        }
        lemma_prefix_bytes(q, p);
    }
    if byte_len(p) == byte_len(q) {
        assert(p.len() == q.len());
        assert(p =~= q);
    }
}

/// Strings with the same bytes have the same characters.
pub proof fn lemma_encode_injective(a: Seq<char>, b: Seq<char>)
    requires
        encode_utf8(a) == encode_utf8(b),
    ensures
        a == b,
{
    encode_utf8_decode_utf8(a);
    encode_utf8_decode_utf8(b);
}

/// The length of `s` in bytes.
pub fn len_in_bytes(s: &str) -> (n: usize)
    ensures
        n == byte_len(s@),
{
    s.as_bytes().len()
}

/// Whether two strings are the same text.
pub fn same_text(a: &str, b: &str) -> (same: bool)
    ensures
        same == (a@ == b@),
{
    let x = a.as_bytes();
    let y = b.as_bytes();
    if x.len() != y.len() {
        return false;
    }
    let n: usize = x.len();
    for i in 0..n
        invariant
            n == x@.len(),
            n == y@.len(),
            x@ == encode_utf8(a@),
            y@ == encode_utf8(b@),
            forall|j: int| 0 <= j < i ==> x@[j] == y@[j],
    {
        if x[i] != y[i] {
            return false;
        }
    }
    proof {
        assert(x@ =~= y@);
        lemma_encode_injective(a@, b@);
    }
    true
}

/// The first `n` bytes of `s`, if a character ends there.
pub fn prefix_at(s: &str, n: usize) -> (p: Option<&str>)
    ensures
        match p {
            Some(p) => p@.is_prefix_of(s@) && byte_len(p@) == n,
            None => forall|q: Seq<char>| q.is_prefix_of(s@) ==> byte_len(q) != n,
        },
{
    let total: usize = len_in_bytes(s);
    if n <= total && s.is_char_boundary(n) {
        let (head, _) = s.split_at(n);
        proof {
            lemma_bytes_prefix(head@, s@, n as int);
        }
        Some(head)
    } else {
        proof {
            assert forall|q: Seq<char>| q.is_prefix_of(s@) implies byte_len(q) != n by {
                lemma_prefix_bytes(q, s@);
            }
        }
        None
    }
}

/// A text is as long as its characters are: one byte for each up to `0x7f`, two up to `0x7ff`,
/// three up to `0xffff`, and four beyond.
pub proof fn law_bytes_of_characters(s: Seq<char>, c: char)
    ensures
        byte_len(Seq::empty()) == 0,
        byte_len(s.push(c)) == byte_len(s) + if c as u32 <= 0x7f {
            1int
        } else if c as u32 <= 0x7ff {
            2
        } else if c as u32 <= 0xffff {
            3
        } else {
            4
        },
{
    let one = seq![c];
    assert(s.push(c) =~= s + one);
    lemma_encode_concat(s, one);
    lemma_encode_step(one);
    assert(one.drop_first() =~= Seq::empty());
}

} // verus!

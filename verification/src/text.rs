//! Strings: their bytes, their order, and decimal numbers in them.

use vstd::prelude::*;
use vstd::string::StrSliceExecFns;
use vstd::utf8::{decode_utf8, encode_utf8, valid_utf8};

verus! {

/// Calls `String::from_utf8`: the bytes become a string if and only if they are
/// valid UTF-8, and the string then holds the characters that they encode.
#[verifier::external_body]
pub(crate) fn string_from_utf8(bytes: Vec<u8>) -> (r: Option<String>)
    ensures
        r is Some <==> valid_utf8(bytes@),
        r is Some ==> r->0@ == decode_utf8(bytes@),
{
    String::from_utf8(bytes).ok()
}

/// Two strings with the same bytes have the same characters.
pub proof fn lemma_utf8_injective(a: Seq<char>, b: Seq<char>)
    requires
        encode_utf8(a) == encode_utf8(b),
    ensures
        a == b,
{
    vstd::utf8::encode_utf8_decode_utf8(a);
    vstd::utf8::encode_utf8_decode_utf8(b);
}

/// The characters of a string come back from its bytes.
pub proof fn lemma_utf8_roundtrip(a: Seq<char>)
    ensures
        valid_utf8(encode_utf8(a)),
        decode_utf8(encode_utf8(a)) == a,
{
    vstd::utf8::encode_utf8_valid_utf8(a);
    vstd::utf8::encode_utf8_decode_utf8(a);
}

/// Valid bytes come back from the characters that they encode.
pub proof fn lemma_utf8_bytes_roundtrip(bytes: Seq<u8>)
    requires
        valid_utf8(bytes),
    ensures
        encode_utf8(decode_utf8(bytes)) == bytes,
{
    vstd::utf8::decode_utf8_encode_utf8(bytes);
}

/// Lexicographic order of byte strings.
pub open spec fn bytes_lt(a: Seq<u8>, b: Seq<u8>) -> bool
    decreases a.len(),
{
    if b.len() == 0 {
        false
    } else if a.len() == 0 {
        true
    } else if a[0] != b[0] {
        a[0] < b[0]
    } else {
        bytes_lt(a.drop_first(), b.drop_first())
    }
}

/// The order of strings: that of their bytes.
pub open spec fn key_lt(a: Seq<char>, b: Seq<char>) -> bool {
    bytes_lt(encode_utf8(a), encode_utf8(b))
}

/// `a` comes before `b` or equals it.
pub open spec fn key_le(a: Seq<char>, b: Seq<char>) -> bool {
    a == b || key_lt(a, b)
}

pub proof fn lemma_bytes_lt_irreflexive(a: Seq<u8>)
    ensures
        !bytes_lt(a, a),
    decreases a.len(),
{
    if a.len() > 0 {
        lemma_bytes_lt_irreflexive(a.drop_first());
    }
}

pub proof fn lemma_bytes_lt_transitive(a: Seq<u8>, b: Seq<u8>, c: Seq<u8>)
    requires
        bytes_lt(a, b),
        bytes_lt(b, c),
    ensures
        bytes_lt(a, c),
    decreases a.len(),
{
    if a.len() > 0 && a[0] == b[0] && b[0] == c[0] {
        lemma_bytes_lt_transitive(a.drop_first(), b.drop_first(), c.drop_first());
    }
}

pub proof fn lemma_bytes_lt_total(a: Seq<u8>, b: Seq<u8>)
    ensures
        a == b || bytes_lt(a, b) || bytes_lt(b, a),
    decreases a.len(),
{
    if a.len() > 0 && b.len() > 0 && a[0] == b[0] {
        lemma_bytes_lt_total(a.drop_first(), b.drop_first());
        if a.drop_first() == b.drop_first() {
            assert(a =~= seq![a[0]] + a.drop_first());
            assert(b =~= seq![b[0]] + b.drop_first());
        }
    } else if a.len() == 0 && b.len() == 0 {
        assert(a =~= b);
    }
}

/// No string comes before itself.
pub proof fn lemma_key_lt_irreflexive(a: Seq<char>)
    ensures
        !key_lt(a, a),
{
    lemma_bytes_lt_irreflexive(encode_utf8(a));
}

/// The order of strings is transitive.
pub proof fn lemma_key_lt_transitive(a: Seq<char>, b: Seq<char>, c: Seq<char>)
    requires
        key_lt(a, b),
        key_lt(b, c),
    ensures
        key_lt(a, c),
{
    lemma_bytes_lt_transitive(encode_utf8(a), encode_utf8(b), encode_utf8(c));
}

/// Of two different strings one comes before the other, and not the other way.
pub proof fn lemma_key_lt_total(a: Seq<char>, b: Seq<char>)
    ensures
        a == b || key_lt(a, b) || key_lt(b, a),
        !(key_lt(a, b) && key_lt(b, a)),
        a == b ==> !key_lt(a, b),
{
    lemma_bytes_lt_total(encode_utf8(a), encode_utf8(b));
    if encode_utf8(a) == encode_utf8(b) {
        lemma_utf8_injective(a, b);
    }
    lemma_bytes_lt_irreflexive(encode_utf8(a));
    if key_lt(a, b) && key_lt(b, a) {
        lemma_bytes_lt_transitive(encode_utf8(a), encode_utf8(b), encode_utf8(a));
    }
}

/// Where one string stands relative to another.
#[derive(Clone, Copy, PartialEq, Eq, Structural, Debug)]
pub enum Rank {
    Before,
    Same,
    After,
}

/// Where `a` stands relative to `b`.
pub open spec fn rank_of(a: Seq<char>, b: Seq<char>) -> Rank {
    if a == b {
        Rank::Same
    } else if key_lt(a, b) {
        Rank::Before
    } else {
        Rank::After
    }
}

proof fn lemma_bytes_lt_at(a: Seq<u8>, b: Seq<u8>, i: int)
    requires
        0 <= i <= a.len(),
        i <= b.len(),
        a.take(i) == b.take(i),
    ensures
        i < a.len() && i < b.len() && a[i] < b[i] ==> bytes_lt(a, b),
        i == a.len() && i < b.len() ==> bytes_lt(a, b),
    decreases i,
{
    if i > 0 {
        assert(a[0] == a.take(i)[0]);
        assert(b[0] == b.take(i)[0]);
        assert(a.drop_first().take(i - 1) =~= a.take(i).drop_first());
        assert(b.drop_first().take(i - 1) =~= b.take(i).drop_first());
        lemma_bytes_lt_at(a.drop_first(), b.drop_first(), i - 1);
    }
}

/// The order of strings goes by the first byte in which they differ, whatever their
/// lengths are: the one whose byte is smaller there comes first, or the one that has ended.
pub proof fn lemma_key_order(a: Seq<char>, b: Seq<char>, i: int)
    requires
        0 <= i <= encode_utf8(a).len(),
        i <= encode_utf8(b).len(),
        forall|j: int| 0 <= j < i ==> encode_utf8(a)[j] == #[trigger] encode_utf8(b)[j],
    ensures
        i < encode_utf8(a).len() && i < encode_utf8(b).len() && encode_utf8(a)[i] < encode_utf8(
            b,
        )[i] ==> key_lt(a, b) && !key_lt(b, a) && key_le(a, b) && !key_le(b, a),
        i == encode_utf8(a).len() && i < encode_utf8(b).len() ==> key_lt(a, b) && !key_lt(b, a)
            && key_le(a, b) && !key_le(b, a),
        i == encode_utf8(a).len() && i == encode_utf8(b).len() ==> a == b && key_le(a, b)
            && !key_lt(a, b),
{
    let x = encode_utf8(a);
    let y = encode_utf8(b);
    assert(x.take(i) =~= y.take(i));
    lemma_bytes_lt_at(x, y, i);
    lemma_key_lt_total(a, b);
    if i == x.len() && i == y.len() {
        assert(x =~= y);
        lemma_utf8_injective(a, b);
    }
}

/// A string comes before another just where there is a byte up to which they agree, and at
/// which it has ended or has the smaller byte.
pub proof fn lemma_key_lt_bytes(a: Seq<char>, b: Seq<char>)
    ensures
        key_lt(a, b) <==> exists|i: int|
            {
                &&& 0 <= i <= encode_utf8(a).len()
                &&& i < encode_utf8(b).len()
                &&& #[trigger] encode_utf8(a).take(i) == encode_utf8(b).take(i)
                &&& i == encode_utf8(a).len() || encode_utf8(a)[i] < encode_utf8(b)[i]
            },
        key_le(a, b) <==> a == b || key_lt(a, b),
{
    let x = encode_utf8(a);
    let y = encode_utf8(b);
    let i = first_difference(x, y);
    lemma_first_difference(x, y);
    if exists|j: int|
        {
            &&& 0 <= j <= x.len()
            &&& j < y.len()
            &&& #[trigger] x.take(j) == y.take(j)
            &&& j == x.len() || x[j] < y[j]
        } {
        let j = choose|j: int|
            {
                &&& 0 <= j <= x.len()
                &&& j < y.len()
                &&& #[trigger] x.take(j) == y.take(j)
                &&& j == x.len() || x[j] < y[j]
            };
        lemma_bytes_lt_at(x, y, j);
    }
    assert(y.take(i) == x.take(i));
    lemma_bytes_lt_at(y, x, i);
    lemma_key_lt_total(a, b);
    if i == x.len() && i == y.len() {
        assert(x =~= x.take(i));
        assert(y =~= y.take(i));
        lemma_utf8_injective(a, b);
    }
}

/// How many bytes agree at the start of two byte strings.
spec fn first_difference(x: Seq<u8>, y: Seq<u8>) -> int
    decreases x.len(),
{
    if x.len() == 0 || y.len() == 0 || x[0] != y[0] {
        0
    } else {
        1 + first_difference(x.drop_first(), y.drop_first())
    }
}

proof fn lemma_first_difference(x: Seq<u8>, y: Seq<u8>)
    ensures
        ({
            let i = first_difference(x, y);
            &&& 0 <= i <= x.len()
            &&& i <= y.len()
            &&& x.take(i) == y.take(i)
            &&& i < x.len() && i < y.len() ==> x[i] != y[i]
        }),
    decreases x.len(),
{
    let i = first_difference(x, y);
    if x.len() == 0 || y.len() == 0 || x[0] != y[0] {
        assert(x.take(0) =~= y.take(0));
    } else {
        lemma_first_difference(x.drop_first(), y.drop_first());
        assert forall|j: int| 0 <= j < i implies x[j] == y[j] by {
            if j > 0 {
                assert(x.drop_first().take(i - 1)[j - 1] == y.drop_first().take(i - 1)[j - 1]);
            }
        }
        assert(x.take(i) =~= y.take(i));
    }
}

/// A string comes before every other that begins with its bytes, and all strings that begin
/// with the bytes of one stand together: what lies beyond one of them lies beyond them all.
pub proof fn lemma_prefix_order(p: Seq<char>, a: Seq<char>, b: Seq<char>)
    requires
        encode_utf8(p).len() <= encode_utf8(a).len(),
        encode_utf8(a).take(encode_utf8(p).len() as int) == encode_utf8(p),
    ensures
        key_le(p, a),
        ({
            let n = encode_utf8(p).len() as int;
            key_lt(p, b) && !(n <= encode_utf8(b).len() && encode_utf8(b).take(n) == encode_utf8(p))
                ==> key_lt(a, b)
        }),
{
    let x = encode_utf8(p);
    let y = encode_utf8(a);
    let z = encode_utf8(b);
    let n = x.len() as int;
    assert forall|j: int| 0 <= j < n implies x[j] == #[trigger] y[j] by {
        assert(y.take(n)[j] == y[j]);
    }
    lemma_key_order(p, a, n);
    let i = first_difference(x, z);
    lemma_first_difference(x, z);
    assert(z.take(i) == x.take(i));
    lemma_bytes_lt_at(z, x, i);
    lemma_key_lt_total(p, b);
    if i == n {
        assert(x.take(n) =~= x);
    } else if i < z.len() {
        assert forall|j: int| 0 <= j < i implies y[j] == #[trigger] z[j] by {
            assert(x.take(i)[j] == z.take(i)[j]);
        }
        if x[i] < z[i] {
            lemma_key_order(a, b, i);
        }
    }
}

/// Compares two strings byte by byte.
pub fn rank(a: &str, b: &str) -> (r: Rank)
    ensures
        r == rank_of(a@, b@),
        r == Rank::Same <==> a@ == b@,
        r == Rank::Before <==> exists|i: int|
            {
                &&& 0 <= i <= encode_utf8(a@).len()
                &&& i < encode_utf8(b@).len()
                &&& #[trigger] encode_utf8(a@).take(i) == encode_utf8(b@).take(i)
                &&& i == encode_utf8(a@).len() || encode_utf8(a@)[i] < encode_utf8(b@)[i]
            },
{
    proof {
        lemma_key_lt_bytes(a@, b@);
    }
    let x = a.as_bytes();
    let y = b.as_bytes();
    let mut i: usize = 0;
    proof {
        lemma_key_lt_total(a@, b@);
    }
    while i < x.len() && i < y.len()
        invariant
            x@ == encode_utf8(a@),
            y@ == encode_utf8(b@),
            i <= x@.len(),
            i <= y@.len(),
            x@.take(i as int) == y@.take(i as int),
            !(key_lt(a@, b@) && key_lt(b@, a@)),
            a@ == b@ ==> !key_lt(a@, b@),
        decreases x@.len() - i,
    {
        if x[i] < y[i] {
            proof {
                lemma_bytes_lt_at(x@, y@, i as int);
                lemma_key_lt_bytes(a@, b@);
            }
            return Rank::Before;
        }
        if y[i] < x[i] {
            proof {
                lemma_bytes_lt_at(y@, x@, i as int);
                lemma_key_lt_total(b@, a@);
                lemma_key_lt_bytes(a@, b@);
            }
            return Rank::After;
        }
        assert(x@.take(i + 1) =~= x@.take(i as int).push(x@[i as int]));
        assert(y@.take(i + 1) =~= y@.take(i as int).push(y@[i as int]));
        i += 1;
    }
    proof {
        lemma_bytes_lt_at(x@, y@, i as int);
        lemma_bytes_lt_at(y@, x@, i as int);
        lemma_key_lt_total(b@, a@);
    }
    if i < y.len() {
        Rank::Before
    } else if i < x.len() {
        Rank::After
    } else {
        proof {
            assert(x@ =~= x@.take(i as int));
            assert(y@ =~= y@.take(i as int));
            lemma_utf8_injective(a@, b@);
        }
        Rank::Same
    }
}

/// Whether two strings hold the same characters.
pub fn same(a: &str, b: &str) -> (r: bool)
    ensures
        r == (a@ == b@),
{
    match rank(a, b) {
        Rank::Same => true,
        _ => false,
    }
}

/// What the strings of a sequence say.
pub open spec fn string_views(v: Seq<String>) -> Seq<Seq<char>> {
    v.map_values(|s: String| s@)
}

/// The number of bytes of a string.
pub open spec fn byte_len(s: Seq<char>) -> nat {
    encode_utf8(s).len()
}

/// The number of bytes of `s`.
pub fn len_of(s: &str) -> (n: usize)
    ensures
        n == byte_len(s@),
{
    s.as_bytes().len()
}

/// The characters of `s`, one by one.
pub fn chars_of(s: &str) -> (out: Vec<char>)
    ensures
        out@ == s@,
{
    let mut out: Vec<char> = Vec::new();
    for c in it: s.chars()
        invariant
            it.seq() == s@,
            out@ == s@.take(it.index() as int),
    {
        assert(s@.take(it.index() + 1) =~= s@.take(it.index() as int).push(c));
        out.push(c);
    }
    assert(s@.take(s@.len() as int) =~= s@);
    out
}

/// `s` without `suffix` at its end.
pub open spec fn without_suffix(s: Seq<char>, suffix: Seq<char>) -> Option<Seq<char>> {
    if suffix.len() <= s.len() && s.skip(s.len() - suffix.len()) == suffix {
        Some(s.take(s.len() - suffix.len()))
    } else {
        None
    }
}

/// `s` without `suffix` at its end, if it ends with it.
pub fn strip_suffix<'a>(s: &'a str, suffix: &str) -> (r: Option<&'a str>)
    ensures
        match r {
            Some(t) => without_suffix(s@, suffix@) == Some(t@),
            None => without_suffix(s@, suffix@) is None,
        },
{
    let x = chars_of(s);
    let y = chars_of(suffix);
    if x.len() < y.len() {
        return None;
    }
    let n: usize = x.len() - y.len();
    let mut i: usize = 0;
    while i < y.len()
        invariant
            x@ == s@,
            y@ == suffix@,
            n + y.len() == x.len(),
            i <= y.len(),
            s@.skip(n as int).take(i as int) == suffix@.take(i as int),
        decreases y@.len() - i,
    {
        assert(s@.skip(n as int)[i as int] == x@[n + i]);
        if x[n + i] != y[i] {
            return None;
        }
        i = i + 1;
        assert(s@.skip(n as int).take(i as int) =~= suffix@.take(i as int));
    }
    assert(s@.skip(n as int) =~= s@.skip(n as int).take(i as int));
    assert(suffix@ =~= suffix@.take(i as int));
    let t = s.substring_char(0, n);
    assert(t@ =~= s@.take(n as int));
    Some(t)
}

/// `s` without `prefix` at its start.
pub open spec fn without_prefix(s: Seq<char>, prefix: Seq<char>) -> Option<Seq<char>> {
    if prefix.len() <= s.len() && s.take(prefix.len() as int) == prefix {
        Some(s.skip(prefix.len() as int))
    } else {
        None
    }
}

/// `s` without `prefix` at its start, if it starts with it.
pub fn strip_prefix<'a>(s: &'a str, prefix: &str) -> (r: Option<&'a str>)
    ensures
        match r {
            Some(t) => without_prefix(s@, prefix@) == Some(t@),
            None => without_prefix(s@, prefix@) is None,
        },
{
    let x = chars_of(s);
    let y = chars_of(prefix);
    if x.len() < y.len() {
        return None;
    }
    let mut i: usize = 0;
    while i < y.len()
        invariant
            x@ == s@,
            y@ == prefix@,
            y.len() <= x.len(),
            i <= y.len(),
            s@.take(i as int) == prefix@.take(i as int),
        decreases y@.len() - i,
    {
        assert(s@.take(y@.len() as int)[i as int] == x@[i as int]);
        if x[i] != y[i] {
            return None;
        }
        i = i + 1;
        assert(s@.take(i as int) =~= prefix@.take(i as int));
    }
    assert(prefix@ =~= prefix@.take(i as int));
    let t = s.substring_char(y.len(), x.len());
    assert(t@ =~= s@.skip(y@.len() as int));
    Some(t)
}

/// The last position of `c` in `s`.
pub open spec fn last_position(s: Seq<char>, c: char) -> Option<int>
    decreases s.len(),
{
    if s.len() == 0 {
        None
    } else if s.last() == c {
        Some(s.len() - 1)
    } else {
        last_position(s.drop_last(), c)
    }
}

/// The parts of `s` before and after the last `c`.
pub open spec fn split_at_last(s: Seq<char>, c: char) -> Option<(Seq<char>, Seq<char>)> {
    match last_position(s, c) {
        Some(p) => Some((s.take(p), s.skip(p + 1))),
        None => None,
    }
}

/// Where no `c` follows the first, a string splits at it.
pub proof fn lemma_split_at_last(a: Seq<char>, b: Seq<char>, c: char)
    requires
        forall|i: int| 0 <= i < b.len() ==> #[trigger] b[i] != c,
    ensures
        split_at_last(a + seq![c] + b, c) == Some((a, b)),
    decreases b.len(),
{
    let s = a + seq![c] + b;
    if b.len() == 0 {
        assert(s.take(a.len() as int) =~= a);
        assert(s.skip(a.len() as int + 1) =~= b);
    } else {
        assert(s.drop_last() =~= a + seq![c] + b.drop_last());
        lemma_split_at_last(a, b.drop_last(), c);
        lemma_last_position_bound(s.drop_last(), c);
        let p = last_position(s.drop_last(), c)->0;
        assert(s.drop_last().take(p).len() == a.len());
        assert(s.take(a.len() as int) =~= a);
        assert(s.skip(a.len() as int + 1) =~= b);
    }
}

/// The last position of a character is one of its positions, and none comes after it.
pub proof fn lemma_last_position_bound(s: Seq<char>, c: char)
    ensures
        last_position(s, c) matches Some(p) ==> 0 <= p < s.len() && s[p] == c && forall|i: int|
            p < i < s.len() ==> #[trigger] s[i] != c,
        last_position(s, c) is None ==> forall|i: int| 0 <= i < s.len() ==> #[trigger] s[i] != c,
    decreases s.len(),
{
    if s.len() > 0 && s.last() != c {
        let front = s.drop_last();
        lemma_last_position_bound(front, c);
        assert(forall|i: int| 0 <= i < s.len() - 1 ==> #[trigger] s[i] == front[i]);
    }
}

/// The parts of `s` before and after the last `c`, if there is one.
pub fn rsplit_once<'a>(s: &'a str, c: char) -> (r: Option<(&'a str, &'a str)>)
    ensures
        match r {
            Some((a, b)) => split_at_last(s@, c) == Some((a@, b@)),
            None => split_at_last(s@, c) is None,
        },
{
    let x = chars_of(s);
    let mut i: usize = x.len();
    assert(s@.take(i as int) =~= s@);
    while i > 0
        invariant
            x@ == s@,
            i <= x@.len(),
            last_position(s@, c) == last_position(s@.take(i as int), c),
        decreases i,
    {
        assert(s@.take(i as int).drop_last() =~= s@.take(i - 1));
        if x[i - 1] == c {
            let a = s.substring_char(0, i - 1);
            let b = s.substring_char(i, x.len());
            assert(a@ =~= s@.take(i - 1));
            assert(b@ =~= s@.skip(i as int));
            return Some((a, b));
        }
        i = i - 1;
    }
    None
}

/// What is left of a string without an end or a start is what makes up the string together
/// with it; nothing is left exactly where the string does not end or start so.
pub proof fn lemma_stripped(s: Seq<char>, part: Seq<char>)
    ensures
        without_suffix(s + part, part) == Some(s),
        without_prefix(part + s, part) == Some(s),
        without_suffix(s, part) matches Some(t) ==> s == t + part,
        without_prefix(s, part) matches Some(t) ==> s == part + t,
{
    assert((s + part).skip(s.len() as int) =~= part);
    assert((s + part).take(s.len() as int) =~= s);
    assert((part + s).take(part.len() as int) =~= part);
    assert((part + s).skip(part.len() as int) =~= s);
    if without_suffix(s, part) is Some {
        assert(s =~= without_suffix(s, part)->0 + part);
    }
    if without_prefix(s, part) is Some {
        assert(s =~= part + without_prefix(s, part)->0);
    }
}

/// The two parts of a string make it up together with the character between them, which
/// the second one has not. A string without the character has no parts.
pub proof fn lemma_split_parts(s: Seq<char>, c: char)
    ensures
        split_at_last(s, c) matches Some((a, b)) ==> s == a.push(c) + b && !b.contains(c),
        split_at_last(s, c) is None <==> !s.contains(c),
{
    lemma_last_position_bound(s, c);
    match last_position(s, c) {
        Some(p) => {
            assert(s =~= s.take(p).push(c) + s.skip(p + 1));
            assert(s.contains(s[p]));
        },
        None => {},
    }
}

} // verus!

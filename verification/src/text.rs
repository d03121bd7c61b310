use vstd::prelude::*;

verus! {

/// The White_Space characters (PropList.txt).
pub const WHITE_SPACE: [(u32, u32); 10] = [
    (0x0009, 0x000D), (0x0020, 0x0020), (0x0085, 0x0085), (0x00A0, 0x00A0), (0x1680, 0x1680),
    (0x2000, 0x200A), (0x2028, 0x2029), (0x202F, 0x202F), (0x205F, 0x205F), (0x3000, 0x3000),
];

/// Whether `c` has the White_Space property.
pub open spec fn is_white_space(c: char) -> bool {
    in_ranges(WHITE_SPACE@, c as u32)
}

/// Number of bytes in the UTF-8 encoding of `c`.
pub open spec fn utf8_width(c: char) -> nat {
    if (c as u32) < 0x80 {
        1
    } else if (c as u32) < 0x800 {
        2
    } else if (c as u32) < 0x10000 {
        3
    } else {
        4
    }
}

/// Byte offset of the `i`-th character of `cs` in its UTF-8 encoding.
pub open spec fn byte_pos(cs: Seq<char>, i: int) -> nat
    decreases i,
{
    if i <= 0 || cs.len() == 0 {
        0
    } else if i > cs.len() {
        byte_pos(cs, cs.len() as int)
    } else {
        byte_pos(cs, i - 1) + utf8_width(cs[i - 1])
    }
}

/// Total UTF-8 length of `cs`.
pub open spec fn byte_len(cs: Seq<char>) -> nat {
    byte_pos(cs, cs.len() as int)
}

pub proof fn lemma_encode_len(cs: Seq<char>)
    ensures
        vstd::utf8::encode_utf8(cs).len() == byte_len(cs),
    decreases cs.len(),
{
    if cs.len() > 0 {
        let rest = cs.drop_first();
        lemma_encode_len(rest);
        vstd::utf8::char_is_scalar(cs[0]);
        lemma_encode_scalar_len(cs[0]);
        lemma_byte_pos_drop_first(cs, cs.len() as int);
    }
}

pub proof fn lemma_encode_scalar_len(c: char)
    ensures
        vstd::utf8::encode_scalar(c as u32).len() == utf8_width(c),
{
    vstd::utf8::char_is_scalar(c);
}

pub proof fn lemma_byte_pos_drop_first(cs: Seq<char>, i: int)
    requires
        cs.len() > 0,
        1 <= i <= cs.len(),
    ensures
        byte_pos(cs, i) == utf8_width(cs[0]) + byte_pos(cs.drop_first(), i - 1),
    decreases i,
{
    let d = cs.drop_first();
    if i > 1 {
        lemma_byte_pos_drop_first(cs, i - 1);
        assert(d[i - 2] == cs[i - 1]);
        assert(byte_pos(d, i - 1) == byte_pos(d, i - 2) + utf8_width(d[i - 2]));
    } else {
        assert(byte_pos(d, 0) == 0);
        assert(byte_pos(cs, 0) == 0);
        assert(byte_pos(cs, 1) == byte_pos(cs, 0) + utf8_width(cs[0]));
    }
}

/// Whether byte offset `p` starts a character of `cs` or is its end.
pub open spec fn is_char_start(cs: Seq<char>, p: int) -> bool {
    exists|k: int| 0 <= k <= cs.len() && byte_pos(cs, k) == p
}

/// The byte offset of character position `i`, as a `usize`, is a
/// character start.
pub proof fn lemma_char_start_at(cs: Seq<char>, i: int)
    requires
        0 <= i <= cs.len(),
        byte_len(cs) <= usize::MAX,
    ensures
        is_char_start(cs, (byte_pos(cs, i) as usize) as int),
        byte_pos(cs, i) <= byte_len(cs),
{
    lemma_byte_pos_mono(cs, i, cs.len() as int);
    assert(byte_pos(cs, i) == (byte_pos(cs, i) as usize) as int);
}

/// The character position whose byte offset is `p` (when there is one).
pub open spec fn char_index(cs: Seq<char>, p: int) -> int {
    choose|k: int| 0 <= k <= cs.len() && byte_pos(cs, k) == p
}

/// Byte offsets grow strictly with character positions.
pub proof fn lemma_byte_pos_mono(cs: Seq<char>, i: int, j: int)
    requires
        0 <= i <= j <= cs.len(),
    ensures
        byte_pos(cs, i) <= byte_pos(cs, j),
        i < j ==> byte_pos(cs, i) < byte_pos(cs, j),
    decreases j - i,
{
    if i < j {
        lemma_byte_pos_mono(cs, i, j - 1);
    }
}

/// The characters of `s`, in order.
pub fn chars_of(s: &str) -> (v: Vec<char>)
    ensures
        v@ == s@,
{
    let mut v: Vec<char> = Vec::new();
    proof {
        broadcast use vstd::string::axiom_spec_iter;
    }
    for c in it: s.chars()
        invariant
            it.seq() == s@,
            v@ == s@.take(it.index() as int),
    {
        v.push(c);
    }
    v
}

pub fn utf8_len_of(c: char) -> (n: usize)
    ensures
        n == utf8_width(c),
{
    if (c as u32) < 0x80 {
        1
    } else if (c as u32) < 0x800 {
        2
    } else if (c as u32) < 0x10000 {
        3
    } else {
        4
    }
}

pub fn str_len(s: &str) -> (n: usize)
    ensures
        n == byte_len(s@),
{
    proof { lemma_encode_len(s@); }
    let b = s.as_bytes();
    b.len()
}

} // verus!
verus! {

/// True when `u` lies in one of the closed ranges of `t`.
pub open spec fn in_ranges(t: Seq<(u32, u32)>, u: u32) -> bool {
    exists|k: int| 0 <= k < t.len() && t[k].0 <= u && u <= #[trigger] t[k].1
}

/// Linear membership test of `u` in a table of closed ranges.
pub fn ranges_contain(t: &[(u32, u32)], u: u32) -> (r: bool)
    ensures
        r == in_ranges(t@, u),
{
    let mut i: usize = 0;
    while i < t.len()
        invariant
            i <= t.len(),
            forall|k: int| 0 <= k < i ==> !(t@[k].0 <= u && u <= #[trigger] t@[k].1),
        decreases t.len() - i,
    {
        if t[i].0 <= u && u <= t[i].1 {
            return true;
        }
        i += 1;
    }
    false
}


/// The byte offset of every character position of `cs`, end included.
pub fn byte_offsets(cs: &Vec<char>) -> (offs: Vec<usize>)
    requires
        byte_len(cs@) <= usize::MAX,
    ensures
        offs@.len() == cs@.len() + 1,
        forall|k: int| 0 <= k <= cs@.len() ==> #[trigger] offs@[k] == byte_pos(cs@, k),
{
    let mut offs: Vec<usize> = Vec::new();
    let mut off: usize = 0;
    let mut k: usize = 0;
    offs.push(0);
    while k < cs.len()
        invariant
            k <= cs@.len(),
            byte_len(cs@) <= usize::MAX,
            off == byte_pos(cs@, k as int),
            offs@.len() == k + 1,
            forall|j: int| 0 <= j <= k ==> #[trigger] offs@[j] == byte_pos(cs@, j),
        decreases cs@.len() - k,
    {
        proof {
            lemma_byte_pos_mono(cs@, k + 1, cs@.len() as int);
        }
        off = off + utf8_len_of(cs[k]);
        k += 1;
        offs.push(off);
    }
    offs
}


/// UTF-8 encoding distributes over concatenation.
pub proof fn lemma_encode_concat(a: Seq<char>, b: Seq<char>)
    ensures
        vstd::utf8::encode_utf8(a + b) == vstd::utf8::encode_utf8(a) + vstd::utf8::encode_utf8(b),
    decreases a.len(),
{
    if a.len() > 0 {
        assert((a + b).drop_first() == a.drop_first() + b);
        lemma_encode_concat(a.drop_first(), b);
        assert((a + b)[0] == a[0]);
    } else {
        assert(a + b == b);
    }
}

/// The byte length of `cs[a..b]` is the distance between the offsets of
/// `a` and `b`.
pub proof fn lemma_byte_len_subrange(cs: Seq<char>, a: int, b: int)
    requires
        0 <= a <= b <= cs.len(),
    ensures
        byte_len(cs.subrange(a, b)) == byte_pos(cs, b) - byte_pos(cs, a),
{
    let x = cs.take(a);
    let y = cs.subrange(a, b);
    assert(cs.take(b) == x + y);
    lemma_encode_concat(x, y);
    lemma_encode_len(cs.take(b));
    lemma_encode_len(x);
    lemma_encode_len(y);
    lemma_byte_len_take(cs, a);
    lemma_byte_len_take(cs, b);
}

/// The encoding of the first `k` characters is `byte_pos(cs, k)` long.
pub proof fn lemma_byte_len_take(cs: Seq<char>, k: int)
    requires
        0 <= k <= cs.len(),
    ensures
        byte_len(cs.take(k)) == byte_pos(cs, k),
        byte_len(cs.skip(k)) + byte_pos(cs, k) == byte_len(cs),
{
    lemma_encode_len(cs);
    lemma_encode_len(cs.take(k));
    lemma_encode_len(cs.skip(k));
    assert(cs == cs.take(k) + cs.skip(k));
    lemma_encode_concat(cs.take(k), cs.skip(k));
    lemma_byte_pos_prefix(cs, k);
}

proof fn lemma_byte_pos_prefix(cs: Seq<char>, k: int)
    requires
        0 <= k <= cs.len(),
    ensures
        byte_pos(cs.take(k), k) == byte_pos(cs, k),
    decreases k,
{
    if k > 0 {
        lemma_byte_pos_prefix(cs, k - 1);
        lemma_byte_pos_same(cs.take(k), cs.take(k - 1), k - 1);
    }
}

proof fn lemma_byte_pos_same(a: Seq<char>, b: Seq<char>, i: int)
    requires
        0 <= i <= a.len(),
        i <= b.len(),
        forall|j: int| 0 <= j < i ==> a[j] == b[j],
    ensures
        byte_pos(a, i) == byte_pos(b, i),
    decreases i,
{
    if i > 0 {
        lemma_byte_pos_same(a, b, i - 1);
    }
}

/// Every character position is a character boundary of the encoding.
pub proof fn lemma_char_boundary(cs: Seq<char>, k: int)
    requires
        0 <= k <= cs.len(),
    ensures
        vstd::utf8::is_char_boundary(vstd::utf8::encode_utf8(cs), byte_pos(cs, k) as int),
    decreases cs.len(),
{
    let bytes = vstd::utf8::encode_utf8(cs);
    vstd::utf8::encode_utf8_valid_utf8(cs);
    if k > 0 {
        vstd::utf8::encode_utf8_first_scalar(cs);
        assert(vstd::utf8::pop_first_scalar(bytes) =~= vstd::utf8::encode_utf8(cs.drop_first()));
        lemma_encode_scalar_len(cs[0]);
        lemma_byte_pos_drop_first(cs, k);
        lemma_char_boundary(cs.drop_first(), k - 1);
        lemma_encode_len(cs);
        lemma_byte_pos_mono(cs, k, cs.len() as int);
    }
}

/// Splits `s` before its `k`-th character, whose byte offset is `mid`.
pub fn split_at_char(s: &str, Ghost(k): Ghost<int>, mid: usize) -> (r: (&str, &str))
    requires
        0 <= k <= s@.len(),
        mid == byte_pos(s@, k),
    ensures
        r.0@ == s@.take(k),
        r.1@ == s@.skip(k),
{
    proof {
        lemma_char_boundary(s@, k);
    }
    let r = s.split_at(mid);
    proof {
        let cs = s@;
        let t = cs.take(k);
        let d = cs.skip(k);
        assert(cs == t + d);
        lemma_encode_concat(t, d);
        lemma_encode_len(t);
        lemma_byte_len_take(cs, k);
        let bytes = vstd::utf8::encode_utf8(cs);
        assert(bytes.subrange(0, mid as int) == vstd::utf8::encode_utf8(t));
        assert(bytes.subrange(mid as int, bytes.len() as int) == vstd::utf8::encode_utf8(d));
        vstd::utf8::encode_utf8_decode_utf8(r.0@);
        vstd::utf8::encode_utf8_decode_utf8(t);
        vstd::utf8::encode_utf8_decode_utf8(r.1@);
        vstd::utf8::encode_utf8_decode_utf8(d);
    }
    r
}


/// Calls `String::push`, which appends `c` to the end of the string.
#[verifier::external_body]
pub(crate) fn string_push(s: &mut String, c: char)
    ensures
        final(s)@ == old(s)@.push(c),
{
    s.push(c);
}

/// A string holding the characters `cs[lo..hi]`.
pub fn string_from_chars(cs: &Vec<char>, lo: usize, hi: usize) -> (r: String)
    requires
        lo <= hi <= cs@.len(),
    ensures
        r@ == cs@.subrange(lo as int, hi as int),
{
    let mut r = String::new();
    let mut k = lo;
    while k < hi
        invariant
            lo <= k <= hi <= cs@.len(),
            r@ == cs@.subrange(lo as int, k as int),
        decreases hi - k,
    {
        string_push(&mut r, cs[k]);
        k += 1;
        proof {
            assert(r@ == cs@.subrange(lo as int, k as int));
        }
    }
    r
}


/// The character position of byte offset `p`, found in the offset table.
pub fn find_char_index(cs: &Vec<char>, offs: &Vec<usize>, p: usize) -> (r: Option<usize>)
    requires
        offs@.len() == cs@.len() + 1,
        forall|k: int| 0 <= k <= cs@.len() ==> #[trigger] offs@[k] == byte_pos(cs@, k),
    ensures
        match r {
            Some(k) => k <= cs@.len() && byte_pos(cs@, k as int) == p && k == char_index(cs@, p as int),
            None => !is_char_start(cs@, p as int),
        },
{
    let mut k: usize = 0;
    while k < offs.len()
        invariant
            offs@.len() == cs@.len() + 1,
            forall|j: int| 0 <= j <= cs@.len() ==> #[trigger] offs@[j] == byte_pos(cs@, j),
            k <= offs@.len(),
            forall|j: int| 0 <= j < k ==> byte_pos(cs@, j) != p,
        decreases offs@.len() - k,
    {
        if offs[k] == p {
            proof {
                let c = char_index(cs@, p as int);
                assert(byte_pos(cs@, k as int) == p);
                if c < k {
                    lemma_byte_pos_mono(cs@, c, k as int);
                } else if c > k {
                    lemma_byte_pos_mono(cs@, k as int, c);
                }
            }
            return Some(k);
        }
        k += 1;
    }
    None
}

/// A string holding the characters `cs[a..b]` followed by `cs[c..d]`.
pub fn string_from_two_ranges(cs: &Vec<char>, a: usize, b: usize, c: usize, d: usize) -> (r: String)
    requires
        a <= b <= cs@.len(),
        c <= d <= cs@.len(),
    ensures
        r@ == cs@.subrange(a as int, b as int) + cs@.subrange(c as int, d as int),
{
    let mut r = string_from_chars(cs, a, b);
    let mut k = c;
    while k < d
        invariant
            c <= k <= d <= cs@.len(),
            r@ == cs@.subrange(a as int, b as int) + cs@.subrange(c as int, k as int),
        decreases d - k,
    {
        string_push(&mut r, cs[k]);
        k += 1;
        proof {
            assert(cs@.subrange(c as int, k as int) == cs@.subrange(c as int, k - 1).push(cs@[k - 1]));
        }
    }
    r
}


/// Calls `char::from_u32`, which returns the character with code point `u`,
/// or `None` when `u` is a surrogate or above U+10FFFF.
#[verifier::external_body]
pub(crate) fn char_from_u32(u: u32) -> (r: Option<char>)
    ensures
        r == (if vstd::utf8::is_scalar(u) { Some(u as char) } else { None::<char> }),
{
    char::from_u32(u)
}

} // verus!

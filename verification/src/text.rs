//! Character-level helpers shared by the parsers: strings are handled as
//! sequences of Unicode scalar values, which is how `str` is viewed.
use vstd::prelude::*;

verus! {

broadcast use vstd::string::group_string_axioms;

/// Appending a character to a `String` extends its characters by that one
/// character (std documents `String::push` as appending `ch` to the end).
pub assume_specification[ String::push ](s: &mut String, ch: char)
    ensures
        final(s)@ == old(s)@.push(ch),
;

/// The characters of a string slice, in order.
pub fn chars_of(s: &str) -> (v: Vec<char>)
    ensures
        v@ == s@,
{
    let mut v: Vec<char> = Vec::new();
    for c in it: s.chars()
        invariant
            v@ == it.seq().take(it.index() as int),
    {
        v.push(c);
    }
    v
}

/// A string holding the characters `cs[start..end]`.
pub fn string_from_range(cs: &Vec<char>, start: usize, end: usize) -> (s: String)
    requires
        start <= end <= cs.len(),
    ensures
        s@ == cs@.subrange(start as int, end as int),
{
    let mut s = String::new();
    let mut i = start;
    while i < end
        invariant
            start <= i <= end <= cs.len(),
            s@ == cs@.subrange(start as int, i as int),
        decreases end - i,
    {
        s.push(cs[i]);
        assert(cs@.subrange(start as int, i + 1) == cs@.subrange(start as int, i as int).push(cs@[i as int]));
        i = i + 1;
    }
    s
}

/// A string holding exactly the given characters.
pub fn string_from_chars(cs: &Vec<char>) -> (s: String)
    ensures
        s@ == cs@,
{
    let s = string_from_range(cs, 0, cs.len());
    assert(cs@.subrange(0, cs@.len() as int) == cs@);
    s
}

/// A copy of a string slice as an owned string.
pub fn owned(s: &str) -> (r: String)
    ensures
        r@ == s@,
{
    let cs = chars_of(s);
    string_from_chars(&cs)
}

/// Appends every character of `t` to `s`.
pub fn push_all(s: &mut String, t: &str)
    ensures
        final(s)@ == old(s)@ + t@,
{
    let cs = chars_of(t);
    let mut i: usize = 0;
    while i < cs.len()
        invariant
            i <= cs.len(),
            cs@ == t@,
            s@ == old(s)@ + cs@.take(i as int),
        decreases cs.len() - i,
    {
        s.push(cs[i]);
        assert(cs@.take(i + 1) == cs@.take(i as int).push(cs@[i as int]));
        i = i + 1;
    }
    assert(cs@.take(cs@.len() as int) == cs@);
}

/// Whether two strings hold the same characters.
pub fn str_eq(a: &str, b: &str) -> (r: bool)
    ensures
        r == (a@ == b@),
{
    let x = chars_of(a);
    let y = chars_of(b);
    chars_eq(&x, &y)
}

/// Whether two character vectors are equal.
pub fn chars_eq(x: &Vec<char>, y: &Vec<char>) -> (r: bool)
    ensures
        r == (x@ == y@),
{
    if x.len() != y.len() {
        return false;
    }
    let mut i: usize = 0;
    while i < x.len()
        invariant
            i <= x.len() == y.len(),
            forall|j: int| 0 <= j < i ==> x@[j] == y@[j],
        decreases x.len() - i,
    {
        if x[i] != y[i] {
            return false;
        }
        i = i + 1;
    }
    assert(x@ =~= y@);
    true
}

/// Strict lexicographic order on character sequences, comparing characters
/// by their scalar values (the order of `str`'s `Ord`).
pub open spec fn chars_lt(a: Seq<char>, b: Seq<char>) -> bool {
    exists|k: int|
        #![trigger a.take(k), b.take(k)]
        0 <= k <= a.len() && k <= b.len() && a.take(k) == b.take(k) && (
            (k == a.len() && k < b.len())
            || (k < a.len() && k < b.len() && (a[k] as u32) < (b[k] as u32))
        )
}

/// The outcome of comparing two character sequences.
#[derive(Debug, Clone, Copy, PartialEq, Eq, Structural)]
pub enum Order {
    Less,
    Equal,
    Greater,
}

/// Compares two character vectors lexicographically.
pub fn chars_compare(x: &Vec<char>, y: &Vec<char>) -> (r: Order)
    ensures
        r == Order::Less <==> chars_lt(x@, y@),
        r == Order::Equal <==> x@ == y@,
        r == Order::Greater <==> chars_lt(y@, x@),
{
    let mut i: usize = 0;
    while i < x.len() && i < y.len()
        invariant
            i <= x.len(),
            i <= y.len(),
            x@.take(i as int) == y@.take(i as int),
        decreases x.len() - i,
    {
        let a = x[i] as u32;
        let b = y[i] as u32;
        if a < b {
            assert(x@.take(i as int) == y@.take(i as int));
            proof { lemma_lt_trichotomy(x@, y@); }
            return Order::Less;
        }
        if b < a {
            assert(y@.take(i as int) == x@.take(i as int));
            proof { lemma_lt_trichotomy(x@, y@); }
            return Order::Greater;
        }
        assert(x@[i as int] == y@[i as int]) by {
            vstd::utf8::char_u32_cast(x@[i as int], a);
            vstd::utf8::char_u32_cast(y@[i as int], b);
        }
        assert(x@.take(i + 1) == x@.take(i as int).push(x@[i as int]));
        assert(y@.take(i + 1) == y@.take(i as int).push(y@[i as int]));
        i = i + 1;
    }
    proof { lemma_lt_trichotomy(x@, y@); }
    if x.len() < y.len() {
        assert(x@.take(i as int) == y@.take(i as int));
        Order::Less
    } else if y.len() < x.len() {
        assert(y@.take(i as int) == x@.take(i as int));
        Order::Greater
    } else {
        assert(x@ == x@.take(i as int));
        assert(y@ == y@.take(i as int));
        Order::Equal
    }
}

/// The order is strict: no sequence precedes itself, and of two sequences
/// at most one precedes the other.
pub proof fn lemma_lt_trichotomy(a: Seq<char>, b: Seq<char>)
    ensures
        !(chars_lt(a, b) && chars_lt(b, a)),
        chars_lt(a, b) ==> a != b,
{
    if chars_lt(a, b) && chars_lt(b, a) {
        let k1 = choose|k: int|
            #![trigger a.take(k), b.take(k)]
            0 <= k <= a.len() && k <= b.len() && a.take(k) == b.take(k) && (
                (k == a.len() && k < b.len())
                || (k < a.len() && k < b.len() && (a[k] as u32) < (b[k] as u32))
            );
        let k2 = choose|k: int|
            #![trigger b.take(k), a.take(k)]
            0 <= k <= b.len() && k <= a.len() && b.take(k) == a.take(k) && (
                (k == b.len() && k < a.len())
                || (k < b.len() && k < a.len() && (b[k] as u32) < (a[k] as u32))
            );
        if k1 < k2 {
            assert(a.take(k2)[k1] == b.take(k2)[k1]);
        } else if k2 < k1 {
            assert(a.take(k1)[k2] == b.take(k1)[k2]);
        }
    }
    if chars_lt(a, b) && a == b {
        let k1 = choose|k: int|
            #![trigger a.take(k), b.take(k)]
            0 <= k <= a.len() && k <= b.len() && a.take(k) == b.take(k) && (
                (k == a.len() && k < b.len())
                || (k < a.len() && k < b.len() && (a[k] as u32) < (b[k] as u32))
            );
    }
}

/// The order is transitive.
pub proof fn lemma_lt_transitive(a: Seq<char>, b: Seq<char>, c: Seq<char>)
    requires
        chars_lt(a, b),
        chars_lt(b, c),
    ensures
        chars_lt(a, c),
{
    let k1 = choose|k: int|
        #![trigger a.take(k), b.take(k)]
        0 <= k <= a.len() && k <= b.len() && a.take(k) == b.take(k) && (
            (k == a.len() && k < b.len())
            || (k < a.len() && k < b.len() && (a[k] as u32) < (b[k] as u32))
        );
    let k2 = choose|k: int|
        #![trigger b.take(k), c.take(k)]
        0 <= k <= b.len() && k <= c.len() && b.take(k) == c.take(k) && (
            (k == b.len() && k < c.len())
            || (k < b.len() && k < c.len() && (b[k] as u32) < (c[k] as u32))
        );
    let k = if k1 <= k2 { k1 } else { k2 };
    assert(a.take(k) =~= c.take(k)) by {
        assert forall|j: int| 0 <= j < k implies a.take(k)[j] == c.take(k)[j] by {
            assert(a.take(k1)[j] == b.take(k1)[j]);
            assert(b.take(k2)[j] == c.take(k2)[j]);
        }
    }
    if k1 < k2 {
        assert(b.take(k2)[k1] == c.take(k2)[k1]);
    } else if k2 < k1 {
        assert(a.take(k1)[k2] == b.take(k1)[k2]);
    }
    assert(a.take(k) == c.take(k));
}

/// Unicode's White_Space characters (what `char::is_whitespace` accepts).
pub open spec fn is_white(c: char) -> bool {
    let u = c as u32;
    (0x09 <= u <= 0x0D) || u == 0x20 || u == 0x85 || u == 0xA0 || u == 0x1680
        || (0x2000 <= u <= 0x200A) || u == 0x2028 || u == 0x2029 || u == 0x202F
        || u == 0x205F || u == 0x3000
}

/// Whether `c` is a White_Space character.
pub fn is_whitespace(c: char) -> (r: bool)
    ensures
        r == is_white(c),
{
    let u = c as u32;
    (0x09 <= u && u <= 0x0D) || u == 0x20 || u == 0x85 || u == 0xA0 || u == 0x1680
        || (0x2000 <= u && u <= 0x200A) || u == 0x2028 || u == 0x2029 || u == 0x202F
        || u == 0x205F || u == 0x3000
}

/// `s` without leading White_Space.
pub open spec fn trim_start(s: Seq<char>) -> Seq<char>
    decreases s.len(),
{
    if s.len() > 0 && is_white(s[0]) {
        trim_start(s.skip(1))
    } else {
        s
    }
}

/// `s` without trailing White_Space.
pub open spec fn trim_end(s: Seq<char>) -> Seq<char>
    decreases s.len(),
{
    if s.len() > 0 && is_white(s.last()) {
        trim_end(s.drop_last())
    } else {
        s
    }
}

/// `s` without leading or trailing White_Space (what `str::trim` gives).
pub open spec fn trim(s: Seq<char>) -> Seq<char> {
    trim_end(trim_start(s))
}

proof fn lemma_trim_start_from(s: Seq<char>, i: int)
    requires
        0 <= i <= s.len(),
        forall|k: int| 0 <= k < i ==> is_white(#[trigger] s[k]),
    ensures
        trim_start(s) == trim_start(s.skip(i)),
    decreases i,
{
    if i > 0 {
        assert(s.skip(1).skip(i - 1) =~= s.skip(i));
        assert forall|k: int| 0 <= k < i - 1 implies is_white(#[trigger] s.skip(1)[k]) by {
            assert(s.skip(1)[k] == s[k + 1]);
        }
        lemma_trim_start_from(s.skip(1), i - 1);
    } else {
        assert(s.skip(0) =~= s);
    }
}

proof fn lemma_trim_end_to(s: Seq<char>, j: int)
    requires
        0 <= j <= s.len(),
        forall|k: int| j <= k < s.len() ==> is_white(#[trigger] s[k]),
    ensures
        trim_end(s) == trim_end(s.take(j)),
    decreases s.len() - j,
{
    if j < s.len() {
        assert(s.drop_last().take(j) =~= s.take(j));
        assert forall|k: int| j <= k < s.drop_last().len() implies is_white(#[trigger] s.drop_last()[k]) by {
            assert(s.drop_last()[k] == s[k]);
        }
        assert(is_white(s[s.len() - 1]));
        lemma_trim_end_to(s.drop_last(), j);
    } else {
        assert(s.take(j) =~= s);
    }
}

/// The characters of `cs` with leading and trailing White_Space removed.
pub fn trim_chars(cs: &Vec<char>) -> (r: Vec<char>)
    ensures
        r@ == trim(cs@),
{
    let mut i: usize = 0;
    while i < cs.len() && is_whitespace(cs[i])
        invariant
            i <= cs.len(),
            forall|k: int| 0 <= k < i ==> is_white(#[trigger] cs@[k]),
        decreases cs.len() - i,
    {
        i = i + 1;
    }
    proof { lemma_trim_start_from(cs@, i as int); }
    let ghost t = cs@.skip(i as int);
    assert(i < cs.len() ==> !is_white(t[0]));
    assert(trim_start(t) == t);
    let mut j: usize = cs.len();
    while j > i && is_whitespace(cs[j - 1])
        invariant
            i <= j <= cs.len(),
            forall|k: int| j <= k < cs.len() ==> is_white(#[trigger] cs@[k]),
        decreases j,
    {
        j = j - 1;
    }
    let ghost u = cs@.subrange(i as int, j as int);
    proof {
        assert forall|k: int| j - i <= k < t.len() implies is_white(#[trigger] t[k]) by {
            assert(t[k] == cs@[i + k]);
        }
        lemma_trim_end_to(t, j - i);
        assert(t.take(j - i) =~= u);
        if j > i {
            assert(u.last() == cs@[j - 1]);
        }
        assert(trim_end(u) == u);
    }
    let mut r: Vec<char> = Vec::new();
    let mut k: usize = i;
    while k < j
        invariant
            i <= k <= j <= cs.len(),
            r@ == cs@.subrange(i as int, k as int),
        decreases j - k,
    {
        r.push(cs[k]);
        assert(cs@.subrange(i as int, k + 1) =~= cs@.subrange(i as int, k as int).push(cs@[k as int]));
        k = k + 1;
    }
    r
}

/// The path with its leading slashes removed (what
/// `str::trim_start_matches('/')` gives).
pub open spec fn strip_leading_slashes(s: Seq<char>) -> Seq<char>
    decreases s.len(),
{
    if s.len() > 0 && s[0] == '/' {
        strip_leading_slashes(s.skip(1))
    } else {
        s
    }
}

proof fn lemma_strip_from(s: Seq<char>, i: int)
    requires
        0 <= i <= s.len(),
        forall|k: int| 0 <= k < i ==> #[trigger] s[k] == '/',
    ensures
        strip_leading_slashes(s) == strip_leading_slashes(s.skip(i)),
    decreases i,
{
    if i > 0 {
        assert(s.skip(1).skip(i - 1) =~= s.skip(i));
        assert forall|k: int| 0 <= k < i - 1 implies #[trigger] s.skip(1)[k] == '/' by {
            assert(s.skip(1)[k] == s[k + 1]);
        }
        lemma_strip_from(s.skip(1), i - 1);
    } else {
        assert(s.skip(0) =~= s);
    }
}

/// A path as the FAT volume wants it: without leading slashes.
pub fn trim_leading_slashes(path: &str) -> (r: String)
    ensures
        r@ == strip_leading_slashes(path@),
{
    let cs = chars_of(path);
    let mut i: usize = 0;
    while i < cs.len() && cs[i] == '/'
        invariant
            i <= cs.len(),
            forall|k: int| 0 <= k < i ==> #[trigger] cs@[k] == '/',
        decreases cs.len() - i,
    {
        i = i + 1;
    }
    proof { lemma_strip_from(cs@, i as int); }
    assert(cs@.subrange(i as int, cs@.len() as int) =~= cs@.skip(i as int));
    string_from_range(&cs, i, cs.len())
}

} // verus!

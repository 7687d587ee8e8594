//! Character-level text utilities: whitespace and quote stripping, prefix
//! tests and the lexicographic order of strings.
//!
//! Strings are modelled by their views, sequences of `char`. Executable code
//! works on `Vec<char>` so that every character is reached in constant time.

use vstd::prelude::*;

verus! {

/// The characters that carry Unicode's `White_Space` property.
pub open spec fn is_space(c: char) -> bool {
    let n = c as u32;
    ||| 0x09 <= n <= 0x0D
    ||| n == 0x20
    ||| n == 0x85
    ||| n == 0xA0
    ||| n == 0x1680
    ||| 0x2000 <= n <= 0x200A
    ||| n == 0x2028
    ||| n == 0x2029
    ||| n == 0x202F
    ||| n == 0x205F
    ||| n == 0x3000
}

/// Tells whether `c` is a white-space character.
pub fn is_whitespace(c: char) -> (r: bool)
    ensures
        r == is_space(c),
{
    let n: u32 = c as u32;
    (0x09 <= n && n <= 0x0D) || n == 0x20 || n == 0x85 || n == 0xA0 || n == 0x1680 || (0x2000 <= n
        && n <= 0x200A) || n == 0x2028 || n == 0x2029 || n == 0x202F || n == 0x205F || n == 0x3000
}

/// What is removed from the two ends of a text.
#[derive(Clone, Copy, Debug)]
pub enum Strip {
    /// White-space characters.
    Space,
    /// Double quotes.
    Quote,
}

/// Whether stripping by `kind` removes the character `c`.
pub open spec fn strippable(kind: Strip, c: char) -> bool {
    match kind {
        Strip::Space => is_space(c),
        Strip::Quote => c == '"',
    }
}

/// `s` without its longest prefix of strippable characters.
pub open spec fn strip_start(s: Seq<char>, kind: Strip) -> Seq<char>
    decreases s.len(),
{
    if s.len() > 0 && strippable(kind, s[0]) {
        strip_start(s.drop_first(), kind)
    } else {
        s
    }
}

/// `s` without its longest suffix of strippable characters.
pub open spec fn strip_end(s: Seq<char>, kind: Strip) -> Seq<char>
    decreases s.len(),
{
    if s.len() > 0 && strippable(kind, s.last()) {
        strip_end(s.drop_last(), kind)
    } else {
        s
    }
}

/// `s` with the strippable characters removed from both ends.
pub open spec fn stripped(s: Seq<char>, kind: Strip) -> Seq<char> {
    strip_end(strip_start(s, kind), kind)
}

/// The text with white space removed from both ends.
pub open spec fn trimmed(s: Seq<char>) -> Seq<char> {
    stripped(s, Strip::Space)
}

/// Tells whether stripping by `kind` removes `c`.
pub fn is_strippable(kind: Strip, c: char) -> (r: bool)
    ensures
        r == strippable(kind, c),
{
    match kind {
        Strip::Space => is_whitespace(c),
        Strip::Quote => c == '"',
    }
}

/// Collects the characters of a string slice.
pub fn to_chars(s: &str) -> (v: Vec<char>)
    ensures
        v@ == s@,
{
    let mut v: Vec<char> = Vec::new();
    for c in it: s.chars()
        invariant
            it.seq() == s@,
            v@ == it.seq().take(it.index() as int),
    {
        v.push(c);
    }
    v
}

/// Builds a `String` out of characters by std's `FromIterator<&char>` for
/// `String`: the string holds exactly the given characters, in their order.
#[verifier::external_body]
pub(crate) fn string_of(chars: &Vec<char>) -> (s: String)
    ensures
        s@ == chars@,
{
    chars.iter().collect()
}

/// Copies the characters of `chars` from index `from` up to `to`.
pub fn slice_of(chars: &Vec<char>, from: usize, to: usize) -> (out: Vec<char>)
    requires
        from <= to <= chars.len(),
    ensures
        out@ == chars@.subrange(from as int, to as int),
{
    let mut out: Vec<char> = Vec::new();
    let mut i: usize = from;
    while i < to
        invariant
            from <= i <= to <= chars.len(),
            out@ == chars@.subrange(from as int, i as int),
        decreases to - i,
    {
        out.push(chars[i]);
        i += 1;
    }
    out
}

/// Removes the strippable characters from both ends of `chars`.
pub fn strip(chars: &Vec<char>, kind: Strip) -> (out: Vec<char>)
    ensures
        out@ == stripped(chars@, kind),
{
    let n: usize = chars.len();
    let mut start: usize = 0;
    assert(chars@.skip(0) =~= chars@);
    while start < n && is_strippable(kind, chars[start])
        invariant
            n == chars.len(),
            start <= n,
            strip_start(chars@, kind) == strip_start(chars@.skip(start as int), kind),
        decreases n - start,
    {
        assert(chars@.skip(start as int).drop_first() =~= chars@.skip(start as int + 1));
        start += 1;
    }
    assert(strip_start(chars@, kind) == chars@.skip(start as int));
    assert(chars@.skip(start as int) =~= chars@.subrange(start as int, n as int));
    let mut end: usize = n;
    while end > start && is_strippable(kind, chars[end - 1])
        invariant
            n == chars.len(),
            start <= end <= n,
            stripped(chars@, kind) == strip_end(chars@.subrange(start as int, end as int), kind),
        decreases end - start,
    {
        assert(chars@.subrange(start as int, end as int).drop_last() =~= chars@.subrange(
            start as int,
            end as int - 1,
        ));
        end -= 1;
    }
    slice_of(chars, start, end)
}

/// The text of `s` with white space removed from both ends, as `str::trim`
/// gives it.
pub fn trim(s: &str) -> (out: String)
    ensures
        out@ == trimmed(s@),
{
    let chars = to_chars(s);
    let kept = strip(&chars, Strip::Space);
    string_of(&kept)
}

/// Tells whether `text` begins with `prefix`.
pub fn starts_with(text: &Vec<char>, prefix: &str) -> (r: bool)
    ensures
        r == prefix@.is_prefix_of(text@),
{
    let p = to_chars(prefix);
    if p.len() > text.len() {
        return false;
    }
    let mut i: usize = 0;
    while i < p.len()
        invariant
            i <= p.len() <= text.len(),
            p@ == prefix@,
            forall|k: int| 0 <= k < i ==> p@[k] == text@[k],
        decreases p.len() - i,
    {
        if p[i] != text[i] {
            return false;
        }
        i += 1;
    }
    true
}

/// Tells whether two string slices hold the same text.
pub fn same_text(a: &str, b: &str) -> (r: bool)
    ensures
        r == (a@ == b@),
{
    let x = to_chars(a);
    let y = to_chars(b);
    if x.len() != y.len() {
        return false;
    }
    let mut i: usize = 0;
    while i < x.len()
        invariant
            i <= x.len(),
            x.len() == y.len(),
            x@ == a@,
            y@ == b@,
            forall|k: int| 0 <= k < i ==> x@[k] == y@[k],
        decreases x.len() - i,
    {
        if x[i] != y[i] {
            assert(a@[i as int] != b@[i as int]);
            return false;
        }
        i += 1;
    }
    assert(x@ =~= y@);
    true
}

/// The order of characters by their code points.
pub open spec fn char_below(x: char, y: char) -> bool {
    (x as u32) < (y as u32)
}

/// The order of characters is a strict total order.
pub proof fn lemma_char_order(x: char, y: char, z: char)
    ensures
        !char_below(x, x),
        x != y ==> char_below(x, y) || char_below(y, x),
        char_below(x, y) && char_below(y, z) ==> char_below(x, z),
{
}

/// The strict lexicographic order of texts by the code points of their
/// characters, which is the order of `str`.
pub open spec fn lex_lt(a: Seq<char>, b: Seq<char>) -> bool
    decreases a.len(),
{
    if b.len() == 0 {
        false
    } else if a.len() == 0 {
        true
    } else if a[0] != b[0] {
        char_below(a[0], b[0])
    } else {
        lex_lt(a.drop_first(), b.drop_first())
    }
}

/// No text is below itself.
pub proof fn lemma_lex_irreflexive(a: Seq<char>)
    ensures
        !lex_lt(a, a),
    decreases a.len(),
{
    if a.len() > 0 {
        lemma_lex_irreflexive(a.drop_first());
    }
}

/// Of two different texts one is below the other.
pub proof fn lemma_lex_total(a: Seq<char>, b: Seq<char>)
    ensures
        a == b || lex_lt(a, b) || lex_lt(b, a),
    decreases a.len(),
{
    if a.len() == 0 || b.len() == 0 {
        if a.len() == 0 && b.len() == 0 {
            assert(a =~= b);
        } else if a.len() == 0 {
            assert(lex_lt(a, b));
        } else {
            assert(lex_lt(b, a));
        }
    } else if a[0] != b[0] {
        lemma_char_order(a[0], b[0], a[0]);
    } else {
        lemma_lex_total(a.drop_first(), b.drop_first());
        if a.drop_first() == b.drop_first() {
            assert(a =~= seq![a[0]] + a.drop_first());
            assert(b =~= seq![b[0]] + b.drop_first());
        }
    }
}

/// The order is transitive.
pub proof fn lemma_lex_transitive(a: Seq<char>, b: Seq<char>, c: Seq<char>)
    requires
        lex_lt(a, b),
        lex_lt(b, c),
    ensures
        lex_lt(a, c),
    decreases a.len(),
{
    if a.len() > 0 {
        if a[0] == b[0] && b[0] == c[0] {
            lemma_lex_transitive(a.drop_first(), b.drop_first(), c.drop_first());
        } else {
            lemma_char_order(a[0], b[0], c[0]);
        }
    }
}

/// The order is asymmetric.
pub proof fn lemma_lex_asymmetric(a: Seq<char>, b: Seq<char>)
    requires
        lex_lt(a, b),
    ensures
        !lex_lt(b, a),
{
    if lex_lt(b, a) {
        lemma_lex_transitive(a, b, a);
        lemma_lex_irreflexive(a);
    }
}

/// Tells whether `x` has the smaller code point.
pub fn char_is_below(x: char, y: char) -> (r: bool)
    ensures
        r == char_below(x, y),
{
    x < y
}

/// Tells whether `a` comes before `b` in the order of `str`.
pub fn chars_lt(a: &Vec<char>, b: &Vec<char>) -> (r: bool)
    ensures
        r == lex_lt(a@, b@),
{
    let mut i: usize = 0;
    assert(a@.skip(0) =~= a@ && b@.skip(0) =~= b@);
    while i < a.len() && i < b.len()
        invariant
            i <= a.len(),
            i <= b.len(),
            lex_lt(a@, b@) == lex_lt(a@.skip(i as int), b@.skip(i as int)),
        decreases a.len() - i,
    {
        let x = a[i];
        let y = b[i];
        assert(a@.skip(i as int)[0] == x);
        assert(b@.skip(i as int)[0] == y);
        if x != y {
            return char_is_below(x, y);
        }
        assert(a@.skip(i as int).drop_first() =~= a@.skip(i as int + 1));
        assert(b@.skip(i as int).drop_first() =~= b@.skip(i as int + 1));
        i += 1;
    }
    i < b.len()
}

/// Tells whether the text `a` comes before the text `b` in the order of `str`.
pub fn str_lt(a: &str, b: &str) -> (r: bool)
    ensures
        r == lex_lt(a@, b@),
{
    let x = to_chars(a);
    let y = to_chars(b);
    chars_lt(&x, &y)
}

} // verus!

//! Text primitives: character classes, splitting, trimming, case folding.
//!
//! Every function works on string slices and is specified over the sequence
//! of characters that the slice holds, so that the rest of the crate never
//! has to reason about UTF-8.

use vstd::prelude::*;
use vstd::std_specs::iter::IteratorSpec;
use vstd::string::*;
use vstd::utf8::*;

verus! {

/// `String::push` appends one character to the end of the string.
pub assume_specification[ String::push ](s: &mut String, c: char)
    ensures
        final(s)@ == old(s)@.push(c),
;

// ---------------------------------------------------------------------------
// Character classes
// ---------------------------------------------------------------------------

/// The sets of characters that SCPI messages are cut up by.
#[derive(Clone, Copy)]
pub enum CharClass {
    /// ASCII white space: space, tab, line feed, form feed, carriage return.
    Space,
    /// Every character with the Unicode `White_Space` property.
    WhiteSpace,
    /// The ten ASCII digits.
    Digit,
    /// ASCII letters.
    Letter,
    /// ASCII upper-case letters.
    Upper,
    /// ASCII letters, ASCII digits and the underscore.
    Word,
    /// Everything but the double quote.
    Unquoted,
    /// Everything but the comma and the semicolon.
    Unseparated,
    /// Everything but the colon.
    Segment,
}

impl CharClass {
    /// Membership of `c` in the class.
    pub open spec fn has(self, c: char) -> bool {
        match self {
            CharClass::Space => c == ' ' || c == '\t' || c == '\n' || c == '\u{c}' || c == '\r',
            CharClass::WhiteSpace => {
                ||| '\u{9}' <= c <= '\u{d}'
                ||| c == ' '
                ||| c == '\u{85}'
                ||| c == '\u{a0}'
                ||| c == '\u{1680}'
                ||| '\u{2000}' <= c <= '\u{200a}'
                ||| c == '\u{2028}'
                ||| c == '\u{2029}'
                ||| c == '\u{202f}'
                ||| c == '\u{205f}'
                ||| c == '\u{3000}'
            },
            CharClass::Digit => '0' <= c <= '9',
            CharClass::Letter => 'a' <= c <= 'z' || 'A' <= c <= 'Z',
            CharClass::Upper => 'A' <= c <= 'Z',
            CharClass::Word => 'a' <= c <= 'z' || 'A' <= c <= 'Z' || '0' <= c <= '9' || c == '_',
            CharClass::Unquoted => c != '"',
            CharClass::Unseparated => c != ',' && c != ';',
            CharClass::Segment => c != ':',
        }
    }

    /// Tell whether `c` belongs to the class.
    pub fn contains(self, c: char) -> (r: bool)
        ensures
            r == self.has(c),
    {
        match self {
            CharClass::Space => c == ' ' || c == '\t' || c == '\n' || c == '\u{c}' || c == '\r',
            CharClass::WhiteSpace => {
                ('\u{9}' <= c && c <= '\u{d}') || c == ' ' || c == '\u{85}' || c == '\u{a0}' || c
                    == '\u{1680}' || ('\u{2000}' <= c && c <= '\u{200a}') || c == '\u{2028}' || c
                    == '\u{2029}' || c == '\u{202f}' || c == '\u{205f}' || c == '\u{3000}'
            },
            CharClass::Digit => '0' <= c && c <= '9',
            CharClass::Letter => ('a' <= c && c <= 'z') || ('A' <= c && c <= 'Z'),
            CharClass::Upper => 'A' <= c && c <= 'Z',
            CharClass::Word => {
                ('a' <= c && c <= 'z') || ('A' <= c && c <= 'Z') || ('0' <= c && c <= '9') || c
                    == '_'
            },
            CharClass::Unquoted => c != '"',
            CharClass::Unseparated => c != ',' && c != ';',
            CharClass::Segment => c != ':',
        }
    }
}

/// The length of the longest prefix of `s` that lies in `class`.
pub open spec fn prefix_len(s: Seq<char>, class: CharClass) -> int
    decreases s.len(),
{
    if s.len() > 0 && class.has(s[0]) {
        1 + prefix_len(s.drop_first(), class)
    } else {
        0
    }
}

/// `s` without its longest suffix that lies in `class`.
pub open spec fn trimmed_end(s: Seq<char>, class: CharClass) -> Seq<char>
    decreases s.len(),
{
    if s.len() > 0 && class.has(s.last()) {
        trimmed_end(s.drop_last(), class)
    } else {
        s
    }
}

/// `s` without the white space at either end.
pub open spec fn trimmed(s: Seq<char>) -> Seq<char> {
    trimmed_end(
        s.skip(prefix_len(s, CharClass::WhiteSpace)),
        CharClass::WhiteSpace,
    )
}

/// The prefix in `class` ends at the first character outside it.
pub proof fn lemma_prefix_len(s: Seq<char>, class: CharClass, k: int)
    requires
        0 <= k <= s.len(),
        forall|i: int| 0 <= i < k ==> class.has(#[trigger] s[i]),
        k < s.len() ==> !class.has(s[k]),
    ensures
        prefix_len(s, class) == k,
    decreases k,
{
    if k > 0 {
        lemma_prefix_len(s.drop_first(), class, k - 1);
    }
}

/// A suffix in `class` comes off, and nothing else does.
pub proof fn lemma_trimmed_end(s: Seq<char>, suffix: Seq<char>, class: CharClass)
    requires
        s.len() > 0 ==> !class.has(s.last()),
        forall|i: int| 0 <= i < suffix.len() ==> class.has(#[trigger] suffix[i]),
    ensures
        trimmed_end(s + suffix, class) == s,
    decreases suffix.len(),
{
    let t = s + suffix;
    if suffix.len() == 0 {
        assert(t =~= s);
    } else {
        assert(class.has(suffix[suffix.len() - 1]));
        assert(t.last() == suffix.last());
        assert(t.drop_last() =~= s + suffix.drop_last());
        lemma_trimmed_end(s, suffix.drop_last(), class);
    }
}

/// What the longest prefix in `class` is made of.
pub proof fn lemma_prefix_len_props(s: Seq<char>, class: CharClass)
    ensures
        0 <= prefix_len(s, class) <= s.len(),
        forall|i: int| 0 <= i < prefix_len(s, class) ==> class.has(#[trigger] s[i]),
        prefix_len(s, class) < s.len() ==> !class.has(s[prefix_len(s, class)]),
    decreases s.len(),
{
    if s.len() > 0 && class.has(s[0]) {
        lemma_prefix_len_props(s.drop_first(), class);
        let t = s.drop_first();
        assert forall|i: int| 0 <= i < prefix_len(s, class) implies class.has(#[trigger] s[i]) by {
            if i > 0 {
                assert(class.has(t[i - 1]));
            }
        }
    }
}

// ---------------------------------------------------------------------------
// Cutting a slice at a character
// ---------------------------------------------------------------------------

proof fn lemma_encode_concat(a: Seq<char>, b: Seq<char>)
    ensures
        encode_utf8(a + b) == encode_utf8(a) + encode_utf8(b),
    decreases a.len(),
{
    if a.len() == 0 {
        assert(a + b =~= b);
        assert(encode_utf8(a) + encode_utf8(b) =~= encode_utf8(b));
    } else {
        lemma_encode_concat(a.drop_first(), b);
        assert((a + b).drop_first() =~= a.drop_first() + b);
        assert(encode_utf8(a + b) =~= encode_utf8(a) + encode_utf8(b));
    }
}

proof fn lemma_encode_boundary(a: Seq<char>, b: Seq<char>)
    ensures
        is_char_boundary(encode_utf8(a + b), encode_utf8(a).len() as int),
    decreases a.len(),
{
    encode_utf8_valid_utf8(a + b);
    if a.len() == 0 {
        is_char_boundary_start_end_of_seq(encode_utf8(a + b));
    } else {
        let bytes = encode_utf8(a + b);
        encode_utf8_first_scalar(a + b);
        lemma_encode_concat(a, b);
        lemma_encode_boundary(a.drop_first(), b);
        assert((a + b).drop_first() =~= a.drop_first() + b);
        assert(pop_first_scalar(bytes) =~= encode_utf8(a.drop_first() + b));
    }
}

proof fn lemma_encode_injective(a: Seq<char>, b: Seq<char>)
    requires
        encode_utf8(a) == encode_utf8(b),
    ensures
        a == b,
{
    encode_utf8_decode_utf8(a);
    encode_utf8_decode_utf8(b);
}

proof fn lemma_encode_one(c: char)
    ensures
        encode_utf8(seq![c]) == encode_scalar(c as u32),
{
    reveal_with_fuel(encode_utf8, 2);
    assert(encode_utf8(seq![c]) =~= encode_scalar(c as u32));
}

/// The number of bytes that `c` takes in UTF-8.
fn char_width(c: char) -> (n: usize)
    ensures
        n == encode_scalar(c as u32).len(),
        1 <= n <= 4,
{
    let v: u32 = c as u32;
    if v <= 0x7F {
        1
    } else if v <= 0x7FF {
        2
    } else if v <= 0xFFFF {
        3
    } else {
        4
    }
}

/// Cut `s` after its first `k` characters, which take `n` bytes.
fn cut<'a>(s: &'a str, n: usize, Ghost(k): Ghost<int>) -> (r: (&'a str, &'a str))
    requires
        0 <= k <= s@.len(),
        encode_utf8(s@.take(k)).len() == n,
    ensures
        r.0@ == s@.take(k),
        r.1@ == s@.skip(k),
{
    let ghost a = s@.take(k);
    let ghost b = s@.skip(k);
    proof {
        assert(a + b =~= s@);
        lemma_encode_boundary(a, b);
        lemma_encode_concat(a, b);
    }
    let r = s.split_at(n);
    proof {
        assert(r.0.spec_bytes() =~= encode_utf8(a));
        assert(r.1.spec_bytes() =~= encode_utf8(b));
        lemma_encode_injective(r.0@, a);
        lemma_encode_injective(r.1@, b);
    }
    r
}

proof fn lemma_encode_step(s: Seq<char>, k: int)
    requires
        0 <= k < s.len(),
    ensures
        encode_utf8(s.take(k + 1)).len() == encode_utf8(s.take(k)).len() + encode_scalar(
            s[k] as u32,
        ).len(),
        encode_utf8(s.take(k + 1)).len() <= encode_utf8(s).len(),
{
    assert(s.take(k + 1) =~= s.take(k) + seq![s[k]]);
    lemma_encode_concat(s.take(k), seq![s[k]]);
    lemma_encode_one(s[k]);
    assert(s.take(k + 1) + s.skip(k + 1) =~= s);
    lemma_encode_concat(s.take(k + 1), s.skip(k + 1));
}

/// Split `s` after its longest prefix in `class`.
pub fn span<'a>(s: &'a str, class: CharClass) -> (r: (&'a str, &'a str))
    ensures
        r.0@ == s@.take(prefix_len(s@, class)),
        r.1@ == s@.skip(prefix_len(s@, class)),
{
    let total: usize = s.as_bytes().len();
    let mut chars = s.chars();
    let mut n: usize = 0;
    let ghost mut k: int = 0;
    let mut done: bool = false;
    while !done
        invariant
            0 <= k <= s@.len(),
            total == encode_utf8(s@).len(),
            n == encode_utf8(s@.take(k)).len(),
            !done ==> chars.remaining() == s@.skip(k),
            forall|i: int| 0 <= i < k ==> class.has(#[trigger] s@[i]),
            done ==> (k < s@.len() ==> !class.has(s@[k])),
        decreases s@.len() - k, (if done { 0int } else { 1int }),
    {
        match chars.next() {
            Some(c) => {
                assert(c == s@[k]);
                if class.contains(c) {
                    proof {
                        lemma_encode_step(s@, k);
                    }
                    n = n + char_width(c);
                    proof {
                        assert(s@.skip(k).drop_first() =~= s@.skip(k + 1));
                        k = k + 1;
                    }
                } else {
                    done = true;
                }
            },
            None => {
                done = true;
            },
        }
    }
    proof {
        lemma_prefix_len(s@, class, k);
    }
    cut(s, n, Ghost(k))
}

/// Split `s` after `head`, which it starts with.
pub fn split_after<'a>(s: &'a str, head: &str) -> (r: (&'a str, &'a str))
    requires
        head@.len() <= s@.len(),
        head@ == s@.take(head@.len() as int),
    ensures
        r.0@ == head@,
        r.1@ == s@.skip(head@.len() as int),
{
    cut(s, head.as_bytes().len(), Ghost(head@.len() as int))
}

/// Split `s` before `tail`, which it ends with.
pub fn split_before<'a>(s: &'a str, tail: &str) -> (r: (&'a str, &'a str))
    requires
        tail@.len() <= s@.len(),
        tail@ == s@.skip(s@.len() - tail@.len()),
    ensures
        r.0@ == s@.take(s@.len() - tail@.len()),
        r.1@ == tail@,
{
    let ghost k = s@.len() - tail@.len();
    let total: usize = s.as_bytes().len();
    let last: usize = tail.as_bytes().len();
    proof {
        lemma_encode_concat(s@.take(k), s@.skip(k));
        assert(s@.take(k) + s@.skip(k) =~= s@);
    }
    cut(s, total - last, Ghost(k))
}

/// Drop from `s` its longest suffix in `class`.
pub fn trim_end<'a>(s: &'a str, class: CharClass) -> (r: &'a str)
    ensures
        r@ == trimmed_end(s@, class),
{
    let total: usize = s.as_bytes().len();
    let mut chars = s.chars();
    let mut seen: usize = 0;
    let mut kept: usize = 0;
    let ghost mut i: int = 0;
    let ghost mut k: int = 0;
    let mut done: bool = false;
    proof {
        assert(s@.take(0) =~= Seq::<char>::empty());
    }
    while !done
        invariant
            0 <= k <= i <= s@.len(),
            total == encode_utf8(s@).len(),
            seen == encode_utf8(s@.take(i)).len(),
            kept == encode_utf8(s@.take(k)).len(),
            !done ==> chars.remaining() == s@.skip(i),
            trimmed_end(s@.take(i), class) == s@.take(k),
            done ==> i == s@.len(),
        decreases s@.len() - i, (if done { 0int } else { 1int }),
    {
        match chars.next() {
            Some(c) => {
                proof {
                    lemma_encode_step(s@, i);
                    assert(s@.skip(i).drop_first() =~= s@.skip(i + 1));
                    assert(s@.take(i + 1).drop_last() =~= s@.take(i));
                    assert(s@.take(i + 1).last() == c);
                }
                seen = seen + char_width(c);
                proof {
                    i = i + 1;
                }
                if !class.contains(c) {
                    kept = seen;
                    proof {
                        k = i;
                    }
                }
            },
            None => {
                done = true;
            },
        }
    }
    proof {
        assert(s@.take(i) =~= s@);
    }
    cut(s, kept, Ghost(k)).0
}

/// Drop the white space at both ends of `s`.
pub fn trim<'a>(s: &'a str) -> (r: &'a str)
    ensures
        r@ == trimmed(s@),
{
    let (_, tail) = span(s, CharClass::WhiteSpace);
    trim_end(tail, CharClass::WhiteSpace)
}

/// Separate the first character of `s` from what follows it.
pub fn split_first<'a>(s: &'a str) -> (r: Option<(char, &'a str)>)
    ensures
        r is None <==> s@.len() == 0,
        r matches Some((c, tail)) ==> c == s@[0] && tail@ == s@.drop_first(),
{
    let mut chars = s.chars();
    match chars.next() {
        None => None,
        Some(c) => {
            proof {
                lemma_encode_step(s@, 0);
                assert(s@.take(0) =~= Seq::<char>::empty());
                assert(s@.skip(1) =~= s@.drop_first());
            }
            let (_, tail) = cut(s, char_width(c), Ghost(1));
            Some((c, tail))
        },
    }
}

// ---------------------------------------------------------------------------
// Comparison and case folding
// ---------------------------------------------------------------------------

/// Tell whether two slices hold the same text.
pub fn same_text(a: &str, b: &str) -> (r: bool)
    ensures
        r == (a@ == b@),
{
    let x = a.as_bytes();
    let y = b.as_bytes();
    if x.len() != y.len() {
        return false;
    }
    let mut i: usize = 0;
    while i < x.len()
        invariant
            x@ == encode_utf8(a@),
            y@ == encode_utf8(b@),
            x@.len() == y@.len(),
            0 <= i <= x@.len(),
            forall|j: int| 0 <= j < i ==> x@[j] == y@[j],
        decreases x@.len() - i,
    {
        if x[i] != y[i] {
            return false;
        }
        i = i + 1;
    }
    proof {
        assert(x@ =~= y@);
        lemma_encode_injective(a@, b@);
    }
    true
}

/// The ASCII upper-case form of one character.
pub open spec fn upper_char(c: char) -> char {
    if 'a' <= c <= 'z' {
        ((c as u8) - 32) as char
    } else {
        c
    }
}

/// The ASCII upper-case form of a text.
pub open spec fn upper(s: Seq<char>) -> Seq<char> {
    Seq::new(s.len(), |i: int| upper_char(s[i]))
}

/// Copy `s`, turning the letters `a` to `z` into upper case.
pub fn to_ascii_uppercase(s: &str) -> (r: String)
    ensures
        r@ == upper(s@),
{
    let mut out = String::new();
    let mut chars = s.chars();
    let mut done: bool = false;
    let ghost mut k: int = 0;
    while !done
        invariant
            0 <= k <= s@.len(),
            !done ==> chars.remaining() == s@.skip(k),
            done ==> k == s@.len(),
            out@ =~= upper(s@).take(k),
        decreases s@.len() - k, (if done { 0int } else { 1int }),
    {
        match chars.next() {
            Some(c) => {
                if 'a' <= c && c <= 'z' {
                    out.push(((c as u8) - 32) as char);
                } else {
                    out.push(c);
                }
                proof {
                    assert(c == s@[k]);
                    assert(s@.skip(k).drop_first() =~= s@.skip(k + 1));
                    k = k + 1;
                }
            },
            None => {
                done = true;
            },
        }
    }
    proof {
        assert(upper(s@).take(k) =~= upper(s@));
    }
    out
}

// ---------------------------------------------------------------------------
// Colon-separated paths
// ---------------------------------------------------------------------------

/// The pieces of `s` between its colons; one more than it has colons.
pub open spec fn colon_pieces(s: Seq<char>) -> Seq<Seq<char>>
    decreases s.len(),
{
    let n = prefix_len(s, CharClass::Segment);
    if 0 <= n < s.len() {
        seq![s.take(n)] + colon_pieces(s.skip(n + 1))
    } else {
        seq![s]
    }
}

/// Texts written one after the other with `separator` between them.
pub open spec fn joined(parts: Seq<Seq<char>>, separator: char) -> Seq<char>
    decreases parts.len(),
{
    if parts.len() == 0 {
        Seq::empty()
    } else if parts.len() == 1 {
        parts[0]
    } else {
        joined(parts.drop_last(), separator).push(separator) + parts.last()
    }
}

/// The texts that a vector of slices holds.
pub open spec fn slice_texts(parts: Seq<&str>) -> Seq<Seq<char>> {
    Seq::new(parts.len(), |i: int| parts[i]@)
}

/// The texts that a vector of strings holds.
pub open spec fn texts(parts: Seq<String>) -> Seq<Seq<char>> {
    Seq::new(parts.len(), |i: int| parts[i]@)
}

/// Split `s` at its colons.
pub fn split_colons<'a>(s: &'a str) -> (r: Vec<&'a str>)
    ensures
        slice_texts(r@) == colon_pieces(s@),
{
    let mut out: Vec<&'a str> = Vec::new();
    let mut rest: &'a str = s;
    let mut done: bool = false;
    proof {
        assert(slice_texts(out@) + colon_pieces(rest@) =~= colon_pieces(s@));
    }
    while !done
        invariant
            !done ==> slice_texts(out@) + colon_pieces(rest@) == colon_pieces(s@),
            done ==> slice_texts(out@) == colon_pieces(s@),
        decreases rest@.len(), (if done { 0int } else { 1int }),
    {
        let (head, tail) = span(rest, CharClass::Segment);
        let ghost before = out@;
        let ghost n = prefix_len(rest@, CharClass::Segment);
        proof {
            lemma_prefix_len_props(rest@, CharClass::Segment);
        }
        out.push(head);
        proof {
            assert(slice_texts(out@) =~= slice_texts(before).push(head@));
        }
        match split_first(tail) {
            Some((_, after)) => {
                proof {
                    assert(after@ =~= rest@.skip(n + 1));
                    assert(slice_texts(out@) + colon_pieces(after@) =~= slice_texts(before)
                        + colon_pieces(rest@));
                }
                rest = after;
            },
            None => {
                proof {
                    assert(head@ =~= rest@);
                    assert(slice_texts(out@) =~= slice_texts(before) + colon_pieces(rest@));
                }
                done = true;
            },
        }
    }
    out
}

/// A text without colons is its only piece.
pub proof fn lemma_no_colon(s: Seq<char>)
    requires
        !s.contains(':'),
    ensures
        colon_pieces(s) == seq![s],
{
    lemma_prefix_len_props(s, CharClass::Segment);
    let n = prefix_len(s, CharClass::Segment);
    if n < s.len() {
        assert(s.contains(s[n]));
    }
}

/// A colon and a text without colons behind it add that text as a piece.
pub proof fn lemma_add_piece(s: Seq<char>, last: Seq<char>)
    requires
        !last.contains(':'),
    ensures
        colon_pieces(s.push(':') + last) == colon_pieces(s).push(last),
    decreases s.len(),
{
    let t = s.push(':') + last;
    let n = prefix_len(s, CharClass::Segment);
    lemma_prefix_len_props(s, CharClass::Segment);
    lemma_prefix_len(t, CharClass::Segment, n);
    assert(t.take(n) =~= s.take(n));
    if n < s.len() {
        lemma_add_piece(s.skip(n + 1), last);
        assert(t.skip(n + 1) =~= s.skip(n + 1).push(':') + last);
        assert(colon_pieces(t) =~= colon_pieces(s).push(last));
    } else {
        assert(t.skip(n + 1) =~= last);
        assert(s.take(n) =~= s);
        lemma_no_colon(last);
        assert(colon_pieces(t) =~= colon_pieces(s).push(last));
    }
}

/// Pieces without colons that are joined by colons come apart again.
pub proof fn lemma_pieces_of_joined(parts: Seq<Seq<char>>)
    requires
        parts.len() > 0,
        forall|i: int| 0 <= i < parts.len() ==> !(#[trigger] parts[i]).contains(':'),
    ensures
        colon_pieces(joined(parts, ':')) == parts,
    decreases parts.len(),
{
    if parts.len() == 1 {
        lemma_no_colon(parts[0]);
        assert(seq![parts[0]] =~= parts);
    } else {
        lemma_pieces_of_joined(parts.drop_last());
        lemma_add_piece(joined(parts.drop_last(), ':'), parts.last());
        assert(parts.drop_last().push(parts.last()) =~= parts);
    }
}

/// Upper-casing a path upper-cases its pieces.
pub proof fn lemma_pieces_of_upper(s: Seq<char>)
    ensures
        colon_pieces(upper(s)).len() == colon_pieces(s).len(),
        forall|i: int|
            0 <= i < colon_pieces(s).len() ==> #[trigger] colon_pieces(upper(s))[i] == upper(
                colon_pieces(s)[i],
            ),
    decreases s.len(),
{
    let n = prefix_len(s, CharClass::Segment);
    lemma_prefix_len_props(s, CharClass::Segment);
    lemma_prefix_len(upper(s), CharClass::Segment, n);
    if n < s.len() {
        lemma_pieces_of_upper(s.skip(n + 1));
        assert(upper(s).take(n) =~= upper(s.take(n)));
        assert(upper(s).skip(n + 1) =~= upper(s.skip(n + 1)));
    }
}

/// Write `parts` one after the other with `separator` between them.
pub fn join(parts: &Vec<String>, separator: char) -> (r: String)
    ensures
        r@ == joined(texts(parts@), separator),
{
    let mut out = String::new();
    let mut i: usize = 0;
    while i < parts.len()
        invariant
            0 <= i <= parts@.len(),
            out@ == joined(texts(parts@).take(i as int), separator),
        decreases parts@.len() - i,
    {
        if i > 0 {
            out.push(separator);
        }
        out.append(parts[i].as_str());
        proof {
            let t = texts(parts@).take(i + 1);
            assert(t.drop_last() =~= texts(parts@).take(i as int));
            assert(t.last() == parts@[i as int]@);
            if i == 0 {
                assert(out@ =~= parts@[0]@);
            }
        }
        i = i + 1;
    }
    proof {
        assert(texts(parts@).take(i as int) =~= texts(parts@));
    }
    out
}

// ---------------------------------------------------------------------------
// Laws of text
// ---------------------------------------------------------------------------

/// Which characters the classes hold, by code point.
pub proof fn law_character_classes(c: char)
    ensures
        ({
            let n = c as u32;
            &&& CharClass::Space.has(c) <==> n == 9 || n == 10 || n == 12 || n == 13 || n == 32
            &&& CharClass::WhiteSpace.has(c) <==> 9 <= n <= 13 || n == 32 || n == 0x85 || n == 0xa0
                || n == 0x1680 || 0x2000 <= n <= 0x200a || n == 0x2028 || n == 0x2029 || n == 0x202f
                || n == 0x205f || n == 0x3000
            &&& CharClass::Digit.has(c) <==> 48 <= n <= 57
            &&& CharClass::Upper.has(c) <==> 65 <= n <= 90
            &&& CharClass::Letter.has(c) <==> 65 <= n <= 90 || 97 <= n <= 122
            &&& CharClass::Word.has(c) <==> CharClass::Letter.has(c) || CharClass::Digit.has(c) || n
                == 95
            &&& CharClass::Unquoted.has(c) <==> n != 34
            &&& CharClass::Unseparated.has(c) <==> n != 44 && n != 59
            &&& CharClass::Segment.has(c) <==> n != 58
        }),
{
}

/// Upper-casing changes the 26 lower-case ASCII letters, each to the letter 32
/// code points below it, and nothing else.  Doing so twice is doing so once,
/// and the length stays.
pub proof fn law_upper_case(s: Seq<char>)
    ensures
        upper(s).len() == s.len(),
        forall|i: int|
            0 <= i < s.len() ==> #[trigger] upper(s)[i] as int == (if 97 <= s[i] as int <= 122 {
                s[i] as int - 32
            } else {
                s[i] as int
            }),
        upper(upper(s)) == upper(s),
{
    assert(upper(upper(s)) =~= upper(s));
}

/// Trimming takes the white space off both ends and leaves the rest as it is.
pub proof fn law_trimming(before: Seq<char>, s: Seq<char>, behind: Seq<char>)
    requires
        forall|i: int|
            0 <= i < before.len() ==> CharClass::WhiteSpace.has(#[trigger] before[i]),
        forall|i: int|
            0 <= i < behind.len() ==> CharClass::WhiteSpace.has(#[trigger] behind[i]),
        s.len() > 0 ==> !CharClass::WhiteSpace.has(s[0]) && !CharClass::WhiteSpace.has(s.last()),
    ensures
        trimmed(before + s + behind) == s,
{
    let t = before + s + behind;
    let n = before.len() as int;
    if s.len() > 0 {
        assert forall|i: int| 0 <= i < n implies CharClass::WhiteSpace.has(#[trigger] t[i]) by {
            assert(t[i] == before[i]);
        }
        assert(t[n] == s[0]);
        lemma_prefix_len(t, CharClass::WhiteSpace, n);
        assert(t.skip(n) =~= s + behind);
        lemma_trimmed_end(s, behind, CharClass::WhiteSpace);
    } else {
        assert forall|i: int| 0 <= i < t.len() implies CharClass::WhiteSpace.has(#[trigger] t[i]) by {
            if i < n {
                assert(t[i] == before[i]);
            } else {
                assert(t[i] == behind[i - n]);
            }
        }
        lemma_prefix_len(t, CharClass::WhiteSpace, t.len() as int);
        assert(t.skip(t.len() as int) =~= Seq::empty());
        assert(s =~= Seq::empty());
    }
}

/// Joining writes the texts in order, with one separator between any two:
/// two runs of texts are joined by joining each, with a separator between.
pub proof fn law_joining(a: Seq<Seq<char>>, b: Seq<Seq<char>>, separator: char)
    requires
        a.len() > 0,
    ensures
        joined(Seq::empty(), separator) == Seq::<char>::empty(),
        a.len() == 1 ==> joined(a, separator) == a[0],
        b.len() > 0 ==> joined(a + b, separator) == joined(a, separator) + seq![separator] + joined(
            b,
            separator,
        ),
    decreases b.len(),
{
    if b.len() > 0 {
        assert((a + b).drop_last() =~= a + b.drop_last());
        law_joining(a, b.drop_last(), separator);
        if b.len() == 1 {
            assert(a + b.drop_last() =~= a);
        }
        assert(joined(a + b, separator) =~= joined(a, separator) + seq![separator] + joined(
            b,
            separator,
        ));
    }
}

/// The pieces between colons hold none, and joined by colons they are the
/// text that they are the pieces of.
pub proof fn law_pieces_join_back(s: Seq<char>)
    ensures
        colon_pieces(s).len() > 0,
        forall|i: int|
            0 <= i < colon_pieces(s).len() ==> !(#[trigger] colon_pieces(s)[i]).contains(':'),
        joined(colon_pieces(s), ':') == s,
    decreases s.len(),
{
    let n = prefix_len(s, CharClass::Segment);
    lemma_prefix_len_props(s, CharClass::Segment);
    if n < s.len() {
        let first = s.take(n);
        let rest = s.skip(n + 1);
        law_pieces_join_back(rest);
        law_joining(seq![first], colon_pieces(rest), ':');
        assert(first + seq![':'] + rest =~= s);
        assert forall|i: int| 0 <= i < colon_pieces(s).len() implies !(#[trigger] colon_pieces(
            s,
        )[i]).contains(':') by {
            if i > 0 {
                assert(colon_pieces(s)[i] == colon_pieces(rest)[i - 1]);
            }
        }
    }
}

} // verus!

//! Text utilities shared by every stage: conversion between strings and
//! character vectors, the total order used to sort canonical renderings, the
//! spacing-normalised canonical form of a path, string-literal escaping and
//! the final segment of a path.

use vstd::prelude::*;
use vstd::std_specs::iter::IteratorSpec;
use vstd::utf8::encode_utf8;

verus! {

/// `String::push` of the standard library: the string grows by exactly the
/// given character, at its end.
pub assume_specification[ String::push ](s: &mut String, c: char)
    ensures
        final(s)@ == old(s)@.push(c),
;

/// The characters of `s`, in order.
pub fn chars_of(s: &str) -> (v: Vec<char>)
    ensures
        v@ == s@,
{
    broadcast use vstd::string::group_string_axioms;

    let mut v: Vec<char> = Vec::new();
    let mut it = s.chars();
    loop
        invariant
            it.obeys_prophetic_iter_laws(),
            it.decrease() is Some,
            v@ + it.remaining() == s@,
        ensures
            v@ == s@,
        decreases it.decrease()->0,
    {
        let ghost before = it;
        match it.next() {
            Some(c) => {
                assert(v@.push(c) + it.remaining() == v@ + before.remaining());
                v.push(c);
            },
            None => {
                assert(v@ + before.remaining() == v@);
                break ;
            },
        }
    }
    v
}

/// Appends the characters `v[from..to]` to `out`.
pub fn push_chars(out: &mut String, v: &Vec<char>, from: usize, to: usize)
    requires
        from <= to <= v.len(),
    ensures
        final(out)@ == old(out)@ + v@.subrange(from as int, to as int),
{
    let mut i: usize = from;
    while i < to
        invariant
            from <= i <= to <= v.len(),
            out@ == old(out)@ + v@.subrange(from as int, i as int),
        decreases to - i,
    {
        out.push(v[i]);
        i = i + 1;
        assert(v@.subrange(from as int, i as int) == v@.subrange(from as int, i - 1).push(
            v@[i - 1],
        ));
    }
}

// ---------------------------------------------------------------------------
// Ordering of texts
// ---------------------------------------------------------------------------

/// Lexicographic comparison of two byte sequences from index `i` on.
pub open spec fn bytes_lt_from(x: Seq<u8>, y: Seq<u8>, i: int) -> bool
    decreases x.len() - i,
{
    if i < 0 || i >= y.len() {
        false
    } else if i >= x.len() {
        true
    } else if x[i] != y[i] {
        x[i] < y[i]
    } else {
        bytes_lt_from(x, y, i + 1)
    }
}

/// Strict lexicographic order on byte sequences.
pub open spec fn bytes_lt(x: Seq<u8>, y: Seq<u8>) -> bool {
    bytes_lt_from(x, y, 0)
}

/// The order in which canonical renderings are sorted: the lexicographic order
/// of their UTF-8 encodings, which is the order of `str` in the standard
/// library.
pub open spec fn text_lt(a: Seq<char>, b: Seq<char>) -> bool {
    bytes_lt(encode_utf8(a), encode_utf8(b))
}

proof fn lemma_bytes_irreflexive(x: Seq<u8>, i: int)
    requires
        0 <= i,
    ensures
        !bytes_lt_from(x, x, i),
    decreases x.len() - i,
{
    if i < x.len() {
        lemma_bytes_irreflexive(x, i + 1);
    }
}

proof fn lemma_bytes_transitive(x: Seq<u8>, y: Seq<u8>, z: Seq<u8>, i: int)
    requires
        0 <= i,
        bytes_lt_from(x, y, i),
        bytes_lt_from(y, z, i),
    ensures
        bytes_lt_from(x, z, i),
    decreases x.len() - i,
{
    if i < x.len() && i < y.len() && i < z.len() && x[i] == y[i] && y[i] == z[i] {
        lemma_bytes_transitive(x, y, z, i + 1);
    }
}

proof fn lemma_bytes_total(x: Seq<u8>, y: Seq<u8>, i: int)
    requires
        0 <= i <= x.len(),
        i <= y.len(),
        forall|j: int| 0 <= j < i ==> x[j] == y[j],
        !bytes_lt_from(x, y, i),
        !bytes_lt_from(y, x, i),
    ensures
        x == y,
    decreases x.len() - i,
{
    if i < x.len() && i < y.len() {
        lemma_bytes_total(x, y, i + 1);
    } else {
        assert(x =~= y);
    }
}

/// No text is below itself.
pub proof fn lemma_text_lt_irreflexive(a: Seq<char>)
    ensures
        !text_lt(a, a),
{
    lemma_bytes_irreflexive(encode_utf8(a), 0);
}

/// The order is transitive.
pub proof fn lemma_text_lt_transitive(a: Seq<char>, b: Seq<char>, c: Seq<char>)
    requires
        text_lt(a, b),
        text_lt(b, c),
    ensures
        text_lt(a, c),
{
    lemma_bytes_transitive(encode_utf8(a), encode_utf8(b), encode_utf8(c), 0);
}

/// Two texts that the order does not separate are the same text.
pub proof fn lemma_text_lt_total(a: Seq<char>, b: Seq<char>)
    requires
        !text_lt(a, b),
        !text_lt(b, a),
    ensures
        a == b,
{
    lemma_bytes_total(encode_utf8(a), encode_utf8(b), 0);
    vstd::utf8::encode_utf8_decode_utf8(a);
    vstd::utf8::encode_utf8_decode_utf8(b);
}

/// Whether `a` sorts strictly before `b`.
pub fn text_less(a: &str, b: &str) -> (r: bool)
    ensures
        r == text_lt(a@, b@),
{
    let x = a.as_bytes();
    let y = b.as_bytes();
    let mut i: usize = 0;
    while i < x.len() && i < y.len()
        invariant
            i <= x.len(),
            i <= y.len(),
            x@ == encode_utf8(a@),
            y@ == encode_utf8(b@),
            bytes_lt(x@, y@) == bytes_lt_from(x@, y@, i as int),
        decreases x.len() - i,
    {
        if x[i] != y[i] {
            return x[i] < y[i];
        }
        i = i + 1;
    }
    i < y.len()
}

/// Whether `a` and `b` are the same text.
pub fn text_eq(a: &str, b: &str) -> (r: bool)
    ensures
        r == (a@ == b@),
{
    let x = a.as_bytes();
    let y = b.as_bytes();
    proof {
        vstd::utf8::encode_utf8_decode_utf8(a@);
        vstd::utf8::encode_utf8_decode_utf8(b@);
    }
    if x.len() != y.len() {
        return false;
    }
    let mut i: usize = 0;
    while i < x.len()
        invariant
            i <= x.len(),
            x.len() == y.len(),
            x@ == encode_utf8(a@),
            y@ == encode_utf8(b@),
            forall|j: int| 0 <= j < i ==> x@[j] == y@[j],
        decreases x.len() - i,
    {
        if x[i] != y[i] {
            return false;
        }
        i = i + 1;
    }
    assert(x@ =~= y@);
    true
}

// ---------------------------------------------------------------------------
// Canonical rendering
// ---------------------------------------------------------------------------

/// White space that separates tokens.
pub open spec fn is_space(c: char) -> bool {
    c == ' ' || c == '\t' || c == '\n' || c == '\r'
}

/// Characters that can be part of an identifier, a keyword or a lifetime
/// name: two of them in a row belong to one token.
pub open spec fn is_word(c: char) -> bool {
    ('a' <= c && c <= 'z') || ('A' <= c && c <= 'Z') || ('0' <= c && c <= '9') || c == '_'
        || c > '\x7f'
}

/// The canonical, spacing-normalised rendering of a path or type expression.
///
/// Every run of white space is dropped, except that a run standing between
/// two word characters is kept as one blank, so that `dyn Trait` stays two
/// words while `Test < bool >` becomes `Test<bool>`.
pub open spec fn canonical(s: Seq<char>) -> Seq<char>
    decreases s.len(),
{
    if s.len() == 0 {
        s
    } else {
        let head = canonical(s.drop_last());
        let c = s.last();
        if is_space(c) {
            head
        } else if s.len() >= 2 && is_space(s[s.len() - 2]) && head.len() > 0 && is_word(head.last())
            && is_word(c) {
            head.push(' ').push(c)
        } else {
            head.push(c)
        }
    }
}

/// Whether `c` is white space that separates tokens.
pub fn is_space_char(c: char) -> (r: bool)
    ensures
        r == is_space(c),
{
    c == ' ' || c == '\t' || c == '\n' || c == '\r'
}

/// Whether `c` can be part of an identifier, a keyword or a lifetime name.
pub fn is_word_char(c: char) -> (r: bool)
    ensures
        r == is_word(c),
{
    ('a' <= c && c <= 'z') || ('A' <= c && c <= 'Z') || ('0' <= c && c <= '9') || c == '_'
        || c > '\x7f'
}

/// Renders `text` canonically.
pub fn canonical_path(text: &str) -> (r: String)
    ensures
        r@ == canonical(text@),
{
    let v = chars_of(text);
    let mut out = String::new();
    let mut gap = false;
    let mut after_word = false;
    let mut i: usize = 0;
    while i < v.len()
        invariant
            i <= v.len(),
            v@ == text@,
            out@ == canonical(v@.take(i as int)),
            gap == (i > 0 && is_space(v@[i - 1])),
            after_word == (out@.len() > 0 && is_word(out@.last())),
        decreases v.len() - i,
    {
        let c = v[i];
        assert(v@.take(i + 1).drop_last() == v@.take(i as int));
        if is_space_char(c) {
            gap = true;
        } else {
            let word = is_word_char(c);
            if gap && after_word && word {
                out.push(' ');
            }
            out.push(c);
            gap = false;
            after_word = word;
        }
        i = i + 1;
    }
    assert(v@.take(v.len() as int) == v@);
    out
}

/// A canonical rendering holds no white space but single blanks.
pub proof fn lemma_canonical_only_blanks(s: Seq<char>, i: int)
    requires
        0 <= i < canonical(s).len(),
        is_space(canonical(s)[i]),
    ensures
        canonical(s)[i] == ' ',
        0 < i < canonical(s).len() - 1,
        is_word(canonical(s)[i - 1]),
        is_word(canonical(s)[i + 1]),
    decreases s.len(),
{
    if s.len() > 0 {
        let head = canonical(s.drop_last());
        if i < head.len() {
            lemma_canonical_only_blanks(s.drop_last(), i);
        }
    }
}

/// Whether `s` holds no white space but single blanks between word
/// characters; a blank may also be the last character of `s`.
pub open spec fn blanks_between_words(s: Seq<char>) -> bool {
    forall|i: int|
        0 <= i < s.len() && is_space(#[trigger] s[i]) ==> s[i] == ' ' && i > 0 && is_word(s[i - 1])
            && (i + 1 < s.len() ==> is_word(s[i + 1]))
}

proof fn lemma_canonical_of_spaced(s: Seq<char>)
    requires
        blanks_between_words(s),
    ensures
        canonical(s) == if s.len() > 0 && is_space(s.last()) {
            s.drop_last()
        } else {
            s
        },
    decreases s.len(),
{
    if s.len() > 0 {
        let head = s.drop_last();
        let c = s.last();
        assert forall|i: int| 0 <= i < head.len() && is_space(#[trigger] head[i]) implies head[i]
            == ' ' && i > 0 && is_word(head[i - 1]) && (i + 1 < head.len() ==> is_word(
            head[i + 1],
        )) by {
            assert(is_space(s[i]));
        }
        lemma_canonical_of_spaced(head);
        if is_space(c) {
            assert(is_space(s[s.len() - 1]));
            assert(is_word(head.last()));
        } else if head.len() > 0 && is_space(head.last()) {
            assert(is_space(s[s.len() - 2]));
            let rest = head.drop_last();
            assert(is_word(rest.last()));
            assert(rest.push(' ').push(c) =~= s);
        } else {
            assert(head.push(c) =~= s);
        }
    }
}

/// Canonical rendering is idempotent: a canonical rendering is its own
/// canonical rendering.
pub proof fn lemma_canonical_idempotent(s: Seq<char>)
    ensures
        canonical(canonical(s)) == canonical(s),
{
    let t = canonical(s);
    assert forall|i: int| 0 <= i < t.len() && is_space(#[trigger] t[i]) implies t[i] == ' ' && i
        > 0 && is_word(t[i - 1]) && (i + 1 < t.len() ==> is_word(t[i + 1])) by {
        lemma_canonical_only_blanks(s, i);
    }
    lemma_canonical_of_spaced(t);
    if t.len() > 0 && is_space(t.last()) {
        lemma_canonical_only_blanks(s, t.len() - 1);
    }
}

/// Canonical rendering treats the two sides of a punctuation character, one
/// that is neither white space nor a word character, independently.
pub proof fn lemma_canonical_around_punctuation(x: Seq<char>, p: char, y: Seq<char>)
    requires
        !is_space(p),
        !is_word(p),
    ensures
        canonical(x.push(p) + y) == canonical(x).push(p) + canonical(y),
    decreases y.len(),
{
    let s = x.push(p) + y;
    if y.len() == 0 {
        assert(s =~= x.push(p));
        assert(x.push(p).drop_last() =~= x);
        assert(canonical(x).push(p) + canonical(y) =~= canonical(x).push(p));
    } else {
        let front = y.drop_last();
        let c = y.last();
        assert(s.drop_last() =~= x.push(p) + front);
        lemma_canonical_around_punctuation(x, p, front);
        let head = canonical(x).push(p) + canonical(front);
        assert(canonical(s.drop_last()) == head);
        assert(s.last() == c);
        if y.len() >= 2 {
            assert(s[s.len() - 2] == y[y.len() - 2]);
        } else {
            assert(s[s.len() - 2] == p);
        }
        if canonical(front).len() > 0 {
            assert(head.last() == canonical(front).last());
        } else {
            assert(head =~= canonical(x).push(p));
        }
        if is_space(c) {
        } else if y.len() >= 2 && is_space(y[y.len() - 2]) && canonical(front).len() > 0 && is_word(
            canonical(front).last(),
        ) && is_word(c) {
            assert(head.push(' ').push(c) =~= canonical(x).push(p) + canonical(front).push(
                ' ',
            ).push(c));
        } else {
            assert(head.push(c) =~= canonical(x).push(p) + canonical(front).push(c));
        }
    }
}

// ---------------------------------------------------------------------------
// Argument lists
// ---------------------------------------------------------------------------

/// Whether `c` opens a bracket.
pub open spec fn opens(c: char) -> bool {
    c == '(' || c == '[' || c == '{' || c == '<'
}

/// Whether `c`, standing after `previous`, closes a bracket. The `>` of an
/// arrow `->` or `=>` closes none.
pub open spec fn closes(previous: Option<char>, c: char) -> bool {
    c == ')' || c == ']' || c == '}' || (c == '>' && previous != Some('-') && previous != Some(
        '=',
    ))
}

/// The number of brackets that are open after `s`. A closing bracket that
/// closes nothing is passed over.
pub open spec fn depth_after(s: Seq<char>) -> nat
    decreases s.len(),
{
    if s.len() == 0 {
        0
    } else {
        let depth = depth_after(s.drop_last());
        let previous = if s.len() >= 2 {
            Some(s[s.len() - 2])
        } else {
            None
        };
        if opens(s.last()) {
            depth + 1
        } else if closes(previous, s.last()) && depth > 0 {
            (depth - 1) as nat
        } else {
            depth
        }
    }
}

/// The number of commas of `s` that stand outside all brackets.
pub open spec fn separators(s: Seq<char>) -> nat
    decreases s.len(),
{
    if s.len() == 0 {
        0
    } else if s.last() == ',' && depth_after(s.drop_last()) == 0 {
        separators(s.drop_last()) + 1
    } else {
        separators(s.drop_last())
    }
}

/// The number of arguments of the argument list `s`: its parts between the
/// commas that stand outside all brackets. A blank list has none, and a comma
/// at the end starts no argument.
pub open spec fn argument_count(s: Seq<char>) -> nat {
    let list = canonical(s);
    if list.len() == 0 {
        0
    } else if list.last() == ',' && depth_after(list.drop_last()) == 0 {
        separators(list)
    } else {
        separators(list) + 1
    }
}

/// An argument list has no more separators than characters, and no more open
/// brackets.
pub proof fn lemma_separators_bounded(s: Seq<char>)
    ensures
        separators(s) <= s.len(),
        depth_after(s) <= s.len(),
    decreases s.len(),
{
    if s.len() > 0 {
        lemma_separators_bounded(s.drop_last());
    }
}

/// The number of arguments of the argument list `text`.
pub fn count_arguments(text: &str) -> (r: usize)
    ensures
        r == argument_count(text@),
{
    let rendered = canonical_path(text);
    let v = chars_of(rendered.as_str());
    let mut depth: usize = 0;
    let mut count: usize = 0;
    let mut trailing = false;
    let mut i: usize = 0;
    while i < v.len()
        invariant
            i <= v.len(),
            v@ == canonical(text@),
            depth == depth_after(v@.take(i as int)),
            count == separators(v@.take(i as int)),
            trailing == (i > 0 && v@[i - 1] == ',' && depth_after(v@.take(i - 1)) == 0),
        decreases v.len() - i,
    {
        let c = v[i];
        proof {
            assert(v@.take(i + 1).drop_last() == v@.take(i as int));
            lemma_separators_bounded(v@.take(i as int));
            if i > 0 {
                assert(v@.take(i + 1)[i - 1] == v@[i - 1]);
            }
        }
        let arrow = i > 0 && (v[i - 1] == '-' || v[i - 1] == '=');
        trailing = c == ',' && depth == 0;
        if trailing {
            count = count + 1;
        }
        if c == '(' || c == '[' || c == '{' || c == '<' {
            depth = depth + 1;
        } else if (c == ')' || c == ']' || c == '}' || (c == '>' && !arrow)) && depth > 0 {
            depth = depth - 1;
        }
        i = i + 1;
    }
    proof {
        assert(v@.take(v.len() as int) == v@);
        lemma_separators_bounded(v@);
        if v.len() > 0 {
            assert(v@.take(v.len() - 1) == v@.drop_last());
            lemma_separators_bounded(v@.drop_last());
        }
    }
    if v.len() == 0 || trailing {
        count
    } else {
        count + 1
    }
}

// ---------------------------------------------------------------------------
// String literals
// ---------------------------------------------------------------------------

/// How one character is written inside a string literal.
pub open spec fn escaped_char(c: char) -> Seq<char> {
    if c == '"' {
        seq!['\\', '"']
    } else if c == '\\' {
        seq!['\\', '\\']
    } else if c == '\n' {
        seq!['\\', 'n']
    } else if c == '\r' {
        seq!['\\', 'r']
    } else if c == '\t' {
        seq!['\\', 't']
    } else {
        seq![c]
    }
}

/// The body of the string literal that denotes `s`.
pub open spec fn escaped(s: Seq<char>) -> Seq<char>
    decreases s.len(),
{
    if s.len() == 0 {
        s
    } else {
        escaped(s.drop_last()) + escaped_char(s.last())
    }
}

/// The string literal that denotes `s`, quotes included.
pub open spec fn string_literal(s: Seq<char>) -> Seq<char> {
    seq!['"'] + escaped(s) + seq!['"']
}

/// Appends to `out` the string literal that denotes `s`.
pub fn push_string_literal(out: &mut String, s: &str)
    ensures
        final(out)@ == old(out)@ + string_literal(s@),
{
    let v = chars_of(s);
    out.push('"');
    let mut i: usize = 0;
    while i < v.len()
        invariant
            i <= v.len(),
            v@ == s@,
            out@ == old(out)@ + seq!['"'] + escaped(v@.take(i as int)),
        decreases v.len() - i,
    {
        let c = v[i];
        assert(v@.take(i + 1).drop_last() == v@.take(i as int));
        let ghost before = out@;
        if c == '"' {
            out.push('\\');
            out.push('"');
        } else if c == '\\' {
            out.push('\\');
            out.push('\\');
        } else if c == '\n' {
            out.push('\\');
            out.push('n');
        } else if c == '\r' {
            out.push('\\');
            out.push('r');
        } else if c == '\t' {
            out.push('\\');
            out.push('t');
        } else {
            out.push(c);
        }
        assert(out@ == before + escaped_char(c));
        i = i + 1;
    }
    assert(v@.take(v.len() as int) == v@);
    out.push('"');
}

// ---------------------------------------------------------------------------
// Path segments
// ---------------------------------------------------------------------------

/// A path separator `::` ends just before index `e`.
pub open spec fn separator_ends_at(s: Seq<char>, e: int) -> bool {
    2 <= e <= s.len() && s[e - 2] == ':' && s[e - 1] == ':'
}

/// The end of the last path separator that ends at or before `e`; 0 where
/// there is none.
pub open spec fn last_separator_end(s: Seq<char>, e: int) -> int
    decreases e,
{
    if e < 2 {
        0
    } else if separator_ends_at(s, e) {
        e
    } else {
        last_separator_end(s, e - 1)
    }
}

/// What follows the last `::` of `s`; all of `s` where it holds none.
pub open spec fn final_segment(s: Seq<char>) -> Seq<char> {
    s.skip(last_separator_end(s, s.len() as int))
}

/// The final segment starts at the beginning or right after a separator, and
/// no separator ends inside it.
pub proof fn lemma_last_separator_end(s: Seq<char>, e: int)
    requires
        0 <= e <= s.len(),
    ensures
        0 <= last_separator_end(s, e) <= e,
        last_separator_end(s, e) == 0 || separator_ends_at(s, last_separator_end(s, e)),
        forall|k: int| last_separator_end(s, e) < k <= e ==> !separator_ends_at(s, k),
    decreases e,
{
    if e >= 2 && !separator_ends_at(s, e) {
        lemma_last_separator_end(s, e - 1);
    }
}

/// The final segment of the path `text`.
pub fn final_segment_of(text: &str) -> (r: String)
    ensures
        r@ == final_segment(text@),
{
    let v = chars_of(text);
    let mut e: usize = v.len();
    while e >= 2 && !(v[e - 2] == ':' && v[e - 1] == ':')
        invariant
            e <= v.len(),
            last_separator_end(v@, v.len() as int) == last_separator_end(v@, e as int),
        decreases e,
    {
        e = e - 1;
    }
    if e < 2 {
        e = 0;
    }
    let mut out = String::new();
    push_chars(&mut out, &v, e, v.len());
    assert(v@.subrange(e as int, v.len() as int) == v@.skip(e as int));
    out
}

} // verus!

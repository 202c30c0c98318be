//! Text as a sequence of characters.
//!
//! Every position in this crate is an index into the sequence of characters
//! of a text (its view), never an offset in bytes.

use vstd::prelude::*;

verus! {

/// The characters with the Unicode property `White_Space`.
pub open spec fn is_white_space(c: char) -> bool {
    let u = c as u32;
    ||| 0x09 <= u <= 0x0D
    ||| u == 0x20
    ||| u == 0x85
    ||| u == 0xA0
    ||| u == 0x1680
    ||| 0x2000 <= u <= 0x200A
    ||| u == 0x2028
    ||| u == 0x2029
    ||| u == 0x202F
    ||| u == 0x205F
    ||| u == 0x3000
}

/// The predicate "is white space", as a value.
pub open spec fn white_space() -> spec_fn(char) -> bool {
    |c: char| is_white_space(c)
}

/// The predicate "is the character `ch`", as a value.
pub open spec fn exactly(ch: char) -> spec_fn(char) -> bool {
    |c: char| c == ch
}

/// `s` without its longest prefix of characters that satisfy `p`.
pub open spec fn skip_leading(s: Seq<char>, p: spec_fn(char) -> bool) -> Seq<char>
    decreases s.len(),
{
    if s.len() > 0 && p(s[0]) {
        skip_leading(s.drop_first(), p)
    } else {
        s
    }
}

/// `s` without its longest suffix of characters that satisfy `p`.
pub open spec fn skip_trailing(s: Seq<char>, p: spec_fn(char) -> bool) -> Seq<char>
    decreases s.len(),
{
    if s.len() > 0 && p(s.last()) {
        skip_trailing(s.drop_last(), p)
    } else {
        s
    }
}

/// `s` with the characters that satisfy `p` removed from both ends.
pub open spec fn trim_matches(s: Seq<char>, p: spec_fn(char) -> bool) -> Seq<char> {
    skip_trailing(skip_leading(s, p), p)
}

/// `s` with white space removed from both ends.
pub open spec fn trim(s: Seq<char>) -> Seq<char> {
    trim_matches(s, white_space())
}

/// `pat` occurs in `s` at position `i`.
pub open spec fn matches_at(s: Seq<char>, pat: Seq<char>, i: int) -> bool {
    0 <= i && i + pat.len() <= s.len() && s.subrange(i, i + pat.len()) == pat
}

/// The first position at or after `from` where `pat` occurs in `s`.
pub open spec fn find_from(s: Seq<char>, pat: Seq<char>, from: int) -> Option<int>
    decreases s.len() - from,
{
    if from < 0 || from + pat.len() > s.len() {
        None
    } else if matches_at(s, pat, from) {
        Some(from)
    } else if from < s.len() {
        find_from(s, pat, from + 1)
    } else {
        None
    }
}

/// The first position where `pat` occurs in `s`.
pub open spec fn find(s: Seq<char>, pat: Seq<char>) -> Option<int> {
    find_from(s, pat, 0)
}

/// The last position at or before `upto` where `pat` occurs in `s`.
pub open spec fn rfind_upto(s: Seq<char>, pat: Seq<char>, upto: int) -> Option<int>
    decreases upto + 1,
{
    if upto < 0 {
        None
    } else if matches_at(s, pat, upto) {
        Some(upto)
    } else {
        rfind_upto(s, pat, upto - 1)
    }
}

/// The last position where `pat` occurs in `s`.
pub open spec fn rfind(s: Seq<char>, pat: Seq<char>) -> Option<int> {
    rfind_upto(s, pat, s.len() - pat.len())
}

/// `pat` occurs somewhere in `s`.
pub open spec fn contains(s: Seq<char>, pat: Seq<char>) -> bool {
    exists|i: int| matches_at(s, pat, i)
}

/// `s` begins with `pat`.
pub open spec fn starts_with(s: Seq<char>, pat: Seq<char>) -> bool {
    matches_at(s, pat, 0)
}

/// `s` with every `from` replaced by `to`.
pub open spec fn replace_char(s: Seq<char>, from: char, to: char) -> Seq<char> {
    s.map_values(|c: char| if c == from { to } else { c })
}

/// The lower case of `s`, as Unicode defines it for whole texts.
pub uninterp spec fn lowercase(s: Seq<char>) -> Seq<char>;

/// What `find_from` returns is the first match at or after `from`, and it
/// returns `None` only where there is none.
pub proof fn lemma_find_from(s: Seq<char>, pat: Seq<char>, from: int)
    requires
        0 <= from,
    ensures
        match find_from(s, pat, from) {
            Some(i) => from <= i && matches_at(s, pat, i) && forall|j: int|
                from <= j < i ==> !matches_at(s, pat, j),
            None => forall|j: int| from <= j ==> !matches_at(s, pat, j),
        },
    decreases s.len() - from,
{
    if from + pat.len() > s.len() {
    } else if matches_at(s, pat, from) {
    } else if from < s.len() {
        lemma_find_from(s, pat, from + 1);
    } else {
        assert(s.subrange(from, from + pat.len()) =~= pat);
    }
}

/// What `rfind_upto` returns is the last match at or before `upto`, and it
/// returns `None` only where there is none.
pub proof fn lemma_rfind_upto(s: Seq<char>, pat: Seq<char>, upto: int)
    ensures
        match rfind_upto(s, pat, upto) {
            Some(i) => 0 <= i <= upto && matches_at(s, pat, i) && forall|j: int|
                i < j <= upto ==> !matches_at(s, pat, j),
            None => forall|j: int| j <= upto ==> !matches_at(s, pat, j),
        },
    decreases upto + 1,
{
    if upto < 0 {
    } else if matches_at(s, pat, upto) {
    } else {
        lemma_rfind_upto(s, pat, upto - 1);
    }
}

/// `find` is `Some` exactly where `pat` occurs in `s`.
pub proof fn lemma_find_contains(s: Seq<char>, pat: Seq<char>)
    ensures
        find(s, pat) is Some <==> contains(s, pat),
{
    lemma_find_from(s, pat, 0);
}

/// Skipping leading characters leaves a suffix, whose first character, if
/// any, does not satisfy `p`, and only skips characters that do.
pub proof fn lemma_skip_leading(s: Seq<char>, p: spec_fn(char) -> bool)
    ensures
        ({
            let t = skip_leading(s, p);
            let k = s.len() - t.len();
            &&& 0 <= k <= s.len()
            &&& t == s.skip(k)
            &&& forall|j: int| 0 <= j < k ==> p(#[trigger] s[j])
            &&& t.len() > 0 ==> !p(t[0])
        }),
    decreases s.len(),
{
    if s.len() > 0 && p(s[0]) {
        let r = s.drop_first();
        lemma_skip_leading(r, p);
        let t = skip_leading(r, p);
        let k = r.len() - t.len();
        assert(r.skip(k) =~= s.skip(k + 1));
        assert forall|j: int| 0 <= j < k + 1 implies p(#[trigger] s[j]) by {
            if j > 0 {
                assert(s[j] == r[j - 1]);
            }
        }
    } else {
        assert(s.skip(0) =~= s);
    }
}

/// Skipping trailing characters leaves a prefix, whose last character, if
/// any, does not satisfy `p`, and only skips characters that do.
pub proof fn lemma_skip_trailing(s: Seq<char>, p: spec_fn(char) -> bool)
    ensures
        ({
            let t = skip_trailing(s, p);
            &&& t.len() <= s.len()
            &&& t == s.take(t.len() as int)
            &&& forall|j: int| t.len() <= j < s.len() ==> p(#[trigger] s[j])
            &&& t.len() > 0 ==> !p(t.last())
        }),
    decreases s.len(),
{
    if s.len() > 0 && p(s.last()) {
        let r = s.drop_last();
        lemma_skip_trailing(r, p);
        let t = skip_trailing(r, p);
        assert(r.take(t.len() as int) =~= s.take(t.len() as int));
        assert forall|j: int| t.len() <= j < s.len() implies p(#[trigger] s[j]) by {
            if j < s.len() - 1 {
                assert(s[j] == r[j]);
            }
        }
    } else {
        assert(s.take(s.len() as int) =~= s);
    }
}

/// A sequence whose ends do not satisfy `p` is its own trimming.
pub proof fn lemma_trim_matches_fixed(s: Seq<char>, p: spec_fn(char) -> bool)
    requires
        s.len() > 0 ==> !p(s[0]) && !p(s.last()),
    ensures
        trim_matches(s, p) == s,
{
}

/// Trimming twice is trimming once.
pub proof fn lemma_trim_matches_idempotent(s: Seq<char>, p: spec_fn(char) -> bool)
    ensures
        trim_matches(trim_matches(s, p), p) == trim_matches(s, p),
{
    let a = skip_leading(s, p);
    let t = skip_trailing(a, p);
    lemma_skip_leading(s, p);
    lemma_skip_trailing(a, p);
    if t.len() > 0 {
        assert(t[0] == a[0]);
    }
    lemma_trim_matches_fixed(t, p);
}

/// Whether `c` is white space.
pub fn is_whitespace(c: char) -> (b: bool)
    ensures
        b == is_white_space(c),
{
    let u: u32 = c as u32;
    (0x09 <= u && u <= 0x0D) || u == 0x20 || u == 0x85 || u == 0xA0 || u == 0x1680 || (0x2000
        <= u && u <= 0x200A) || u == 0x2028 || u == 0x2029 || u == 0x202F || u == 0x205F || u
        == 0x3000
}

/// The lower case of a text.
///
/// Calls `str::to_lowercase`. Its result depends on the text alone, and is
/// named `lowercase`; nothing more is claimed of it.
#[verifier::external_body]
pub(crate) fn to_lowercase(s: &str) -> (r: String)
    ensures
        r@ == lowercase(s@),
{
    s.to_lowercase()
}

/// The characters of `s`, in order.
pub fn chars_of(s: &str) -> (v: Vec<char>)
    ensures
        v@ == s@,
{
    let mut v: Vec<char> = Vec::new();
    for c in it: s.chars()
        invariant
            v@ == it.seq().take(it.index()),
            it.seq() == s@,
    {
        v.push(c);
    }
    v
}

/// Appends one character to a string.
///
/// Calls `String::push`, which the standard library documents as appending
/// the given character to the end of the string.
#[verifier::external_body]
fn push_char(s: &mut String, c: char)
    ensures
        final(s)@ == old(s)@.push(c),
{
    s.push(c)
}

/// The string made of the characters of `v`, in order.
pub fn string_of(v: &Vec<char>) -> (s: String)
    ensures
        s@ == v@,
{
    let mut s = String::new();
    let mut i: usize = 0;
    while i < v.len()
        invariant
            i <= v.len(),
            s@ == v@.take(i as int),
        decreases v.len() - i,
    {
        push_char(&mut s, v[i]);
        assert(v@.take(i as int).push(v@[i as int]) =~= v@.take(i + 1));
        i += 1;
    }
    assert(v@.take(v.len() as int) =~= v@);
    s
}

/// The characters of `v` from position `from` up to `to`.
pub fn slice_of(v: &Vec<char>, from: usize, to: usize) -> (r: Vec<char>)
    requires
        from <= to <= v.len(),
    ensures
        r@ == v@.subrange(from as int, to as int),
{
    let mut r: Vec<char> = Vec::new();
    let mut i: usize = from;
    while i < to
        invariant
            from <= i <= to <= v.len(),
            r@ == v@.subrange(from as int, i as int),
        decreases to - i,
    {
        r.push(v[i]);
        assert(v@.subrange(from as int, i as int).push(v@[i as int]) =~= v@.subrange(
            from as int,
            i + 1,
        ));
        i += 1;
    }
    r
}

/// Whether `pat` occurs in `text` at position `i`.
pub fn is_match_at(text: &Vec<char>, pat: &Vec<char>, i: usize) -> (b: bool)
    ensures
        b == matches_at(text@, pat@, i as int),
{
    if pat.len() > text.len() || i > text.len() - pat.len() {
        return false;
    }
    let mut k: usize = 0;
    while k < pat.len()
        invariant
            k <= pat.len(),
            i + pat.len() <= text.len(),
            forall|j: int| 0 <= j < k ==> text@[i + j] == pat@[j],
        decreases pat.len() - k,
    {
        if text[i + k] != pat[k] {
            assert(text@.subrange(i as int, i + pat.len())[k as int] != pat@[k as int]);
            return false;
        }
        k += 1;
    }
    assert(text@.subrange(i as int, i + pat.len()) =~= pat@);
    true
}

/// The first position at or after `from` where `pat` occurs in `text`.
pub fn find_in(text: &Vec<char>, pat: &Vec<char>, from: usize) -> (r: Option<usize>)
    ensures
        r matches Some(i) ==> find_from(text@, pat@, from as int) == Some(i as int) && from <= i
            && i + pat.len() <= text.len(),
        r is None ==> find_from(text@, pat@, from as int) is None,
{
    if pat.len() > text.len() || from > text.len() - pat.len() {
        return None;
    }
    let last: usize = text.len() - pat.len();
    let mut i: usize = from;
    loop
        invariant
            from <= i <= last,
            last == text.len() - pat.len(),
            find_from(text@, pat@, from as int) == find_from(text@, pat@, i as int),
        decreases last - i,
    {
        if is_match_at(text, pat, i) {
            return Some(i);
        }
        if i == last {
            proof {
                lemma_find_from(text@, pat@, i as int);
                lemma_find_from(text@, pat@, i + 1);
            }
            return None;
        }
        i += 1;
    }
}

/// The last position where `pat` occurs in `text`.
pub fn rfind_in(text: &Vec<char>, pat: &Vec<char>) -> (r: Option<usize>)
    ensures
        r matches Some(i) ==> rfind(text@, pat@) == Some(i as int) && i + pat.len() <= text.len(),
        r is None ==> rfind(text@, pat@) is None,
{
    if pat.len() > text.len() {
        return None;
    }
    let mut i: usize = text.len() - pat.len();
    loop
        invariant
            i <= text.len() - pat.len(),
            rfind(text@, pat@) == rfind_upto(text@, pat@, i as int),
        decreases i,
    {
        if is_match_at(text, pat, i) {
            return Some(i);
        }
        if i == 0 {
            assert(rfind_upto(text@, pat@, -1) is None);
            return None;
        }
        i -= 1;
    }
}

/// Whether `text` begins with `pat`.
pub fn has_prefix(text: &Vec<char>, pat: &Vec<char>) -> (b: bool)
    ensures
        b == starts_with(text@, pat@),
{
    is_match_at(text, pat, 0)
}

/// Whether `pat` occurs in `text`.
pub fn has_infix(text: &Vec<char>, pat: &Vec<char>) -> (b: bool)
    ensures
        b == contains(text@, pat@),
{
    proof {
        lemma_find_contains(text@, pat@);
    }
    find_in(text, pat, 0).is_some()
}

/// `text` with white space removed from both ends.
pub fn trimmed(text: &Vec<char>) -> (r: Vec<char>)
    ensures
        r@ == trim(text@),
{
    let ghost p = white_space();
    let mut a: usize = 0;
    assert(text@.skip(0) =~= text@);
    while a < text.len() && is_whitespace(text[a])
        invariant
            a <= text.len(),
            p == white_space(),
            skip_leading(text@, p) == skip_leading(text@.skip(a as int), p),
        decreases text.len() - a,
    {
        assert(text@.skip(a as int).drop_first() =~= text@.skip(a + 1));
        a += 1;
    }
    let ghost lead = text@.skip(a as int);
    assert(skip_leading(text@, p) == lead);
    let mut b: usize = text.len();
    assert(lead.take(b - a) =~= lead);
    while b > a && is_whitespace(text[b - 1])
        invariant
            a <= b <= text.len(),
            p == white_space(),
            lead == text@.skip(a as int),
            skip_trailing(lead, p) == skip_trailing(lead.take(b - a), p),
        decreases b,
    {
        assert(lead.take(b - a).drop_last() =~= lead.take(b - a - 1));
        assert(lead.take(b - a).last() == text@[b - 1]);
        b -= 1;
    }
    proof {
        if b > a {
            assert(lead.take(b - a).last() == text@[b - 1]);
        }
        assert(lead.take(b - a) =~= text@.subrange(a as int, b as int));
    }
    slice_of(text, a, b)
}

/// `text` with the character `ch` removed from both ends.
pub fn trimmed_of(text: &Vec<char>, ch: char) -> (r: Vec<char>)
    ensures
        r@ == trim_matches(text@, exactly(ch)),
{
    let ghost p = exactly(ch);
    let mut a: usize = 0;
    assert(text@.skip(0) =~= text@);
    while a < text.len() && text[a] == ch
        invariant
            a <= text.len(),
            p == exactly(ch),
            skip_leading(text@, p) == skip_leading(text@.skip(a as int), p),
        decreases text.len() - a,
    {
        assert(text@.skip(a as int).drop_first() =~= text@.skip(a + 1));
        a += 1;
    }
    let ghost lead = text@.skip(a as int);
    assert(skip_leading(text@, p) == lead);
    let mut b: usize = text.len();
    assert(lead.take(b - a) =~= lead);
    while b > a && text[b - 1] == ch
        invariant
            a <= b <= text.len(),
            p == exactly(ch),
            lead == text@.skip(a as int),
            skip_trailing(lead, p) == skip_trailing(lead.take(b - a), p),
        decreases b,
    {
        assert(lead.take(b - a).drop_last() =~= lead.take(b - a - 1));
        assert(lead.take(b - a).last() == text@[b - 1]);
        b -= 1;
    }
    proof {
        if b > a {
            assert(lead.take(b - a).last() == text@[b - 1]);
        }
        assert(lead.take(b - a) =~= text@.subrange(a as int, b as int));
    }
    slice_of(text, a, b)
}

/// `text` with every `from` replaced by `to`.
pub fn replaced(text: &Vec<char>, from: char, to: char) -> (r: Vec<char>)
    ensures
        r@ == replace_char(text@, from, to),
{
    let mut r: Vec<char> = Vec::new();
    let mut i: usize = 0;
    while i < text.len()
        invariant
            i <= text.len(),
            r@ == replace_char(text@.take(i as int), from, to),
        decreases text.len() - i,
    {
        let c = text[i];
        r.push(if c == from { to } else { c });
        assert(replace_char(text@.take(i + 1), from, to) =~= replace_char(
            text@.take(i as int),
            from,
            to,
        ).push(if c == from { to } else { c }));
        i += 1;
    }
    assert(text@.take(text.len() as int) =~= text@);
    r
}

/// Appends the characters of `tail` to `v`.
pub fn append(v: &mut Vec<char>, tail: &Vec<char>)
    ensures
        final(v)@ == old(v)@ + tail@,
{
    let mut i: usize = 0;
    while i < tail.len()
        invariant
            i <= tail.len(),
            v@ == old(v)@ + tail@.take(i as int),
        decreases tail.len() - i,
    {
        v.push(tail[i]);
        assert(tail@.take(i as int).push(tail@[i as int]) =~= tail@.take(i + 1));
        i += 1;
    }
    assert(tail@.take(tail.len() as int) =~= tail@);
}

/// Whether two sequences of characters are the same.
pub fn same_chars(a: &Vec<char>, b: &Vec<char>) -> (r: bool)
    ensures
        r == (a@ == b@),
{
    if a.len() != b.len() {
        return false;
    }
    let r = is_match_at(a, b, 0);
    assert(a@.subrange(0, a.len() as int) =~= a@);
    r
}

/// Whether two texts are the same.
pub fn same_text(a: &str, b: &str) -> (r: bool)
    ensures
        r == (a@ == b@),
{
    same_chars(&chars_of(a), &chars_of(b))
}

/// Whether `text` begins with `prefix`.
pub fn text_starts_with(text: &str, prefix: &str) -> (r: bool)
    ensures
        r == starts_with(text@, prefix@),
{
    has_prefix(&chars_of(text), &chars_of(prefix))
}

/// The texts `items` joined with `sep` between them.
pub open spec fn join(items: Seq<Seq<char>>, sep: Seq<char>) -> Seq<char>
    decreases items.len(),
{
    if items.len() == 0 {
        Seq::empty()
    } else if items.len() == 1 {
        items[0]
    } else {
        join(items.drop_last(), sep) + sep + items.last()
    }
}

/// The texts that a list of strings stands for.
pub open spec fn texts(list: Seq<String>) -> Seq<Seq<char>> {
    list.map_values(|s: String| s@)
}

/// The sequences that a list of vectors stands for.
pub open spec fn views(items: Seq<Vec<char>>) -> Seq<Seq<char>> {
    items.map_values(|v: Vec<char>| v@)
}

/// The texts `items` joined with `sep` between them.
pub fn joined(items: &Vec<Vec<char>>, sep: &Vec<char>) -> (r: Vec<char>)
    ensures
        r@ == join(views(items@), sep@),
{
    let ghost all = views(items@);
    let mut out: Vec<char> = Vec::new();
    let mut i: usize = 0;
    assert(all.take(0) =~= Seq::<Seq<char>>::empty());
    while i < items.len()
        invariant
            i <= items.len(),
            all == views(items@),
            out@ == join(all.take(i as int), sep@),
        decreases items.len() - i,
    {
        proof {
            assert(all.take(i + 1).drop_last() =~= all.take(i as int));
            assert(all.take(i + 1).last() == items@[i as int]@);
            if i == 0 {
                assert(all.take(1)[0] == items@[0]@);
                assert(Seq::<char>::empty() + items@[0]@ =~= items@[0]@);
            }
        }
        if i > 0 {
            append(&mut out, sep);
        }
        append(&mut out, &items[i]);
        i += 1;
    }
    assert(all.take(items@.len() as int) =~= all);
    out
}

/// How many bytes the first `at` characters of `text` take when the text
/// is written in UTF-8: the position of the character `at` counted in
/// bytes.
pub open spec fn byte_at(text: Seq<char>, at: int) -> nat {
    vstd::utf8::encode_utf8(text.take(at)).len()
}

/// The bytes of a text are those of its first part and then those of the
/// rest.
pub proof fn lemma_bytes_of_parts(a: Seq<char>, b: Seq<char>)
    ensures
        vstd::utf8::encode_utf8(a + b) == vstd::utf8::encode_utf8(a) + vstd::utf8::encode_utf8(b),
    decreases a.len(),
{
    if a.len() == 0 {
        assert(a + b =~= b);
        assert(vstd::utf8::encode_utf8(a) + vstd::utf8::encode_utf8(b) =~= vstd::utf8::encode_utf8(
            b,
        ));
    } else {
        lemma_bytes_of_parts(a.drop_first(), b);
        assert((a + b).drop_first() =~= a.drop_first() + b);
        assert(vstd::utf8::encode_scalar(a[0] as u32) + (vstd::utf8::encode_utf8(a.drop_first())
            + vstd::utf8::encode_utf8(b)) =~= (vstd::utf8::encode_scalar(a[0] as u32)
            + vstd::utf8::encode_utf8(a.drop_first())) + vstd::utf8::encode_utf8(b));
    }
}

/// A character takes one to four bytes, so the positions counted in bytes
/// grow with the positions counted in characters, and end at the length of
/// the text in bytes.
pub proof fn lemma_byte_at_grows(text: Seq<char>, at: int)
    requires
        0 <= at < text.len(),
    ensures
        byte_at(text, at + 1) == byte_at(text, at) + vstd::utf8::encode_scalar(
            text[at] as u32,
        ).len(),
        byte_at(text, at) < byte_at(text, at + 1) <= byte_at(text, text.len() as int),
        byte_at(text, 0) == 0,
        byte_at(text, text.len() as int) == vstd::utf8::encode_utf8(text).len(),
{
    let one = seq![text[at]];
    assert(text.take(at + 1) =~= text.take(at) + one);
    lemma_bytes_of_parts(text.take(at), one);
    assert(one.drop_first() =~= Seq::<char>::empty());
    assert(vstd::utf8::encode_utf8(one.drop_first()) =~= Seq::<u8>::empty());
    assert(vstd::utf8::encode_utf8(one) =~= vstd::utf8::encode_scalar(one[0] as u32)
        + vstd::utf8::encode_utf8(one.drop_first()));
    assert(vstd::utf8::encode_utf8(one) =~= vstd::utf8::encode_scalar(text[at] as u32));
    assert(text =~= text.take(at + 1) + text.skip(at + 1));
    lemma_bytes_of_parts(text.take(at + 1), text.skip(at + 1));
    assert(text.take(text.len() as int) =~= text);
    assert(text.take(0) =~= Seq::<char>::empty());
}

/// Positions counted in bytes are in the order of the positions counted in
/// characters.
pub proof fn lemma_byte_at_ordered(text: Seq<char>, i: int, j: int)
    requires
        0 <= i <= j <= text.len(),
    ensures
        byte_at(text, i) <= byte_at(text, j),
        i < j ==> byte_at(text, i) < byte_at(text, j),
    decreases j - i,
{
    if i < j {
        lemma_byte_at_grows(text, j - 1);
        lemma_byte_at_ordered(text, i, j - 1);
    }
}

/// How many bytes a character takes in UTF-8.
pub fn char_len(c: char) -> (n: usize)
    ensures
        n == vstd::utf8::encode_scalar(c as u32).len(),
        1 <= n <= 4,
{
    let v = c as u32;
    if v <= 0x7F {
        1
    } else if v <= 0x7FF {
        2
    } else if v <= 0xFFFF {
        3
    } else {
        4
    }
}

/// The position of each character of `text` counted in bytes, and behind
/// them the length of the text in bytes.
pub fn byte_offsets(text: &str) -> (r: Vec<usize>)
    ensures
        r@.len() == text@.len() + 1,
        forall|i: int| 0 <= i <= text@.len() ==> #[trigger] r@[i] == byte_at(text@, i),
{
    let chars = chars_of(text);
    let total = text.as_bytes().len();
    let mut out: Vec<usize> = Vec::new();
    let mut at: usize = 0;
    let mut i: usize = 0;
    assert(chars@.take(0) =~= Seq::<char>::empty());
    assert(chars@.take(chars@.len() as int) =~= chars@);
    while i < chars.len()
        invariant
            i <= chars.len(),
            chars@ == text@,
            total == byte_at(chars@, chars@.len() as int),
            at == byte_at(chars@, i as int),
            out@.len() == i,
            forall|j: int| 0 <= j < i ==> #[trigger] out@[j] == byte_at(chars@, j),
        decreases chars.len() - i,
    {
        proof {
            lemma_byte_at_grows(chars@, i as int);
        }
        out.push(at);
        at = at + char_len(chars[i]);
        i += 1;
    }
    out.push(at);
    out
}

/// The position counted in characters that stands at the byte `at` of a
/// text whose positions in bytes are `offsets`; `None` where the byte
/// stands inside a character or behind the text.
pub fn char_position(offsets: &Vec<usize>, at: usize) -> (r: Option<usize>)
    ensures
        match r {
            Some(i) => i < offsets@.len() && offsets@[i as int] == at,
            None => forall|i: int| 0 <= i < offsets@.len() ==> offsets@[i] != at,
        },
{
    let mut i: usize = 0;
    while i < offsets.len()
        invariant
            i <= offsets.len(),
            forall|j: int| 0 <= j < i ==> offsets@[j] != at,
        decreases offsets.len() - i,
    {
        if offsets[i] == at {
            return Some(i);
        }
        i += 1;
    }
    None
}

/// The text that the bytes encode, if they encode one.
///
/// Calls `String::from_utf8`, which the standard library documents as
/// turning the bytes into a string without a change where they are valid
/// UTF-8, and as failing where they are not.
#[verifier::external_body]
pub(crate) fn text_of_bytes(bytes: Vec<u8>) -> (r: Option<String>)
    ensures
        r is Some <==> vstd::utf8::valid_utf8(bytes@),
        r matches Some(s) ==> vstd::utf8::encode_utf8(s@) == bytes@,
        r matches Some(s) ==> s@ == vstd::utf8::decode_utf8(bytes@),
{
    String::from_utf8(bytes).ok()
}

} // verus!

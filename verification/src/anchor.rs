//! Links between pages, as they are written in wikitext.

use crate::text::{
    byte_at, byte_offsets, char_position, chars_of, exactly, find, find_from, find_in,
    has_prefix, lemma_byte_at_ordered, lemma_find_from, lemma_skip_leading,
    lemma_skip_trailing, lemma_trim_matches_fixed, lemma_trim_matches_idempotent, matches_at,
    skip_leading, skip_trailing, slice_of, starts_with, string_of, trim, trim_matches, trimmed,
    trimmed_of, white_space,
};
use vstd::prelude::*;
use vstd::string::*;

verus! {

/// A link between pages: to a page under its own name, or to a page under
/// another surface text.
#[derive(Clone, Debug, PartialEq)]
pub enum Anchor {
    Direct(String),
    Label { surface: String, page: String },
}

/// What an `Anchor` stands for.
pub enum AnchorModel {
    Direct(Seq<char>),
    Label { surface: Seq<char>, page: Seq<char> },
}

impl View for Anchor {
    type V = AnchorModel;

    open spec fn view(&self) -> AnchorModel {
        match self {
            Anchor::Direct(name) => AnchorModel::Direct(name@),
            Anchor::Label { surface, page } => AnchorModel::Label { surface: surface@, page: page@ },
        }
    }
}

impl AnchorModel {
    /// The page that the link leads to.
    pub open spec fn target(self) -> Seq<char> {
        match self {
            AnchorModel::Direct(name) => name,
            AnchorModel::Label { page, .. } => page,
        }
    }

    /// The text under which the link shows.
    pub open spec fn shown(self) -> Seq<char> {
        match self {
            AnchorModel::Direct(name) => name,
            AnchorModel::Label { surface, .. } => surface,
        }
    }

    /// The token that this link is written as: the page alone, or the page,
    /// a bar and the surface.
    pub open spec fn token(self) -> Seq<char> {
        match self {
            AnchorModel::Direct(name) => name,
            AnchorModel::Label { surface, page } => page + seq!['|'] + surface,
        }
    }

    /// Neither part would change if it were read again: the page has no
    /// white space at its ends and no bar, and the surface has neither white
    /// space nor apostrophes at its ends.
    pub open spec fn is_normal(self) -> bool {
        match self {
            AnchorModel::Direct(name) => trim(name) == name && find(name, seq!['|']) is None,
            AnchorModel::Label { surface, page } => {
                &&& trim(page) == page
                &&& find(page, seq!['|']) is None
                &&& find(page, seq!['#']) is None
                &&& surface.len() > 0
                &&& trim_matches(trim(surface), exactly('\'')) == surface
            },
        }
    }
}

/// `s` up to its first `#`, or all of it.
pub open spec fn without_fragment(s: Seq<char>) -> Seq<char> {
    match find(s, seq!['#']) {
        Some(i) => s.take(i),
        None => s,
    }
}

/// The link that the token `t` (the text between `[[` and `]]`) stands for.
///
/// Without a bar it links to the trimmed token. With one, the page is what
/// stands before the first bar, trimmed and then cut at its first `#`; the
/// surface is the rest, trimmed and then freed of apostrophes at its ends; an
/// empty surface gives a direct link to the page.
pub open spec fn parse_token(t: Seq<char>) -> AnchorModel {
    match find(t, seq!['|']) {
        Some(i) => {
            let page = without_fragment(trim(t.take(i)));
            let surface = trim_matches(trim(t.skip(i + 1)), exactly('\''));
            if surface.len() == 0 {
                AnchorModel::Direct(page)
            } else {
                AnchorModel::Label { surface, page }
            }
        },
        None => AnchorModel::Direct(trim(t)),
    }
}

/// An ASCII letter.
pub open spec fn is_ascii_letter(c: char) -> bool {
    ('A' <= c && c <= 'Z') || ('a' <= c && c <= 'z')
}

/// `s` begins with one or more ASCII letters followed by a colon, as the
/// links to other wikis, to files and to other name spaces do.
pub open spec fn has_scheme(s: Seq<char>) -> bool {
    exists|n: int| is_scheme_of(s, n)
}

/// The first `n` characters of `s` are ASCII letters, there is at least one,
/// and a colon follows them.
pub open spec fn is_scheme_of(s: Seq<char>, n: int) -> bool {
    &&& 1 <= n < s.len()
    &&& s[n] == ':'
    &&& forall|j: int| 0 <= j < n ==> is_ascii_letter(#[trigger] s[j])
}

/// The token of the link that opens at `begin` in `page`, where `[[` stands:
/// the text up to the next `]]`. There is none if what follows `[[` begins
/// with `#` or with a scheme, or if no `]]` follows.
pub open spec fn token_at(page: Seq<char>, begin: int) -> Option<Seq<char>> {
    let rest = page.skip(begin + 2);
    if starts_with(rest, seq!['#']) || has_scheme(rest) {
        None
    } else {
        match find_from(page, seq![']', ']'], begin) {
            Some(end) => Some(page.subrange(begin + 2, end)),
            None => None,
        }
    }
}

/// A scheme of `s` ends at the first character that is no letter, so `s` has
/// a scheme exactly if its first `k + 1` characters have, where `k` is the
/// position of that character.
pub proof fn lemma_scheme_is_local(s: Seq<char>, k: int)
    requires
        0 <= k < s.len(),
        !is_ascii_letter(s[k]),
        forall|j: int| 0 <= j < k ==> is_ascii_letter(#[trigger] s[j]),
    ensures
        has_scheme(s) <==> has_scheme(s.take(k + 1)),
        has_scheme(s) <==> (k >= 1 && s[k] == ':'),
{
    let p = s.take(k + 1);
    if has_scheme(s) {
        let n = choose|n: int| is_scheme_of(s, n);
        if n < k {
            assert(is_ascii_letter(s[n]));
        }
        if n > k {
            assert(is_ascii_letter(s[k]));
        }
        assert(n == k);
        assert(is_scheme_of(p, k));
    }
    if has_scheme(p) {
        let n = choose|n: int| is_scheme_of(p, n);
        assert forall|j: int| 0 <= j < n implies is_ascii_letter(#[trigger] s[j]) by {
            assert(p[j] == s[j]);
        }
        assert(is_scheme_of(s, n));
        if n < k {
            assert(is_ascii_letter(s[n]));
        }
    }
    if k >= 1 && s[k] == ':' {
        assert(is_scheme_of(s, k));
    }
}

/// A pattern of one character occurs exactly where that character stands.
pub proof fn lemma_match_one(s: Seq<char>, c: char, i: int)
    ensures
        matches_at(s, seq![c], i) <==> (0 <= i < s.len() && s[i] == c),
{
    if 0 <= i < s.len() {
        if s[i] == c {
            assert(s.subrange(i, i + 1) =~= seq![c]);
        } else {
            assert(s.subrange(i, i + 1)[0] == s[i]);
        }
    }
}

/// `c` is found in `s` exactly if it stands somewhere in `s`.
pub proof fn lemma_find_one(s: Seq<char>, c: char)
    ensures
        find(s, seq![c]) is None <==> !s.contains(c),
        find(s, seq![c]) matches Some(i) ==> 0 <= i < s.len() && s[i] == c && !s.take(i).contains(
            c,
        ),
{
    lemma_find_from(s, seq![c], 0);
    match find(s, seq![c]) {
        Some(i) => {
            lemma_match_one(s, c, i);
            assert(s.contains(c));
            if s.take(i).contains(c) {
                let j = choose|j: int| 0 <= j < s.take(i).len() && s.take(i)[j] == c;
                lemma_match_one(s, c, j);
            }
        },
        None => {
            if s.contains(c) {
                let j = choose|j: int| 0 <= j < s.len() && s[j] == c;
                lemma_match_one(s, c, j);
            }
        },
    }
}

/// What trimming leaves is a part of the text: it holds no character that
/// the text does not hold.
pub proof fn lemma_trim_matches_within(s: Seq<char>, p: spec_fn(char) -> bool, c: char)
    requires
        !s.contains(c),
    ensures
        !trim_matches(s, p).contains(c),
{
    let a = skip_leading(s, p);
    let t = skip_trailing(a, p);
    lemma_skip_leading(s, p);
    lemma_skip_trailing(a, p);
    if t.contains(c) {
        let j = choose|j: int| 0 <= j < t.len() && t[j] == c;
        assert(a[j] == c);
        assert(s[j + (s.len() - a.len())] == c);
    }
}

/// A text that holds no `q` is not changed by taking `q` from its ends.
pub proof fn lemma_trim_absent(s: Seq<char>, q: char)
    requires
        !s.contains(q),
    ensures
        trim_matches(s, exactly(q)) == s,
{
    if s.len() > 0 {
        assert(s.contains(s[0]));
        assert(s.contains(s.last()));
    }
    lemma_trim_matches_fixed(s, exactly(q));
}

/// Reading a link in normal form back from its token gives the same link:
/// where the token is split at its bar, each part trimmed and the parts
/// joined again, nothing has changed.
pub proof fn lemma_parse_round_trip(a: AnchorModel)
    requires
        a.is_normal(),
    ensures
        parse_token(a.token()) == a,
{
    let bar = seq!['|'];
    match a {
        AnchorModel::Direct(name) => {},
        AnchorModel::Label { surface, page } => {
            let t = a.token();
            let n = page.len() as int;
            lemma_find_one(page, '|');
            lemma_find_one(page, '#');
            lemma_find_one(t, '|');
            assert(t[n] == '|');
            assert(t.contains('|'));
            let i = find(t, bar)->0;
            if i < n {
                assert(page[i] == t[i]);
                assert(page.contains('|'));
            }
            if i > n {
                assert(t.take(i)[n] == '|');
                assert(t.take(i).contains('|'));
            }
            assert(t.take(n) =~= page);
            assert(t.skip(n + 1) =~= surface);
        },
    }
}

/// The link read from a token that holds neither `#` nor an apostrophe is in
/// normal form, so that it is read back unchanged from its own token.
pub proof fn lemma_parse_is_normal(t: Seq<char>)
    requires
        !t.contains('#'),
        !t.contains('\''),
    ensures
        parse_token(t).is_normal(),
        parse_token(parse_token(t).token()) == parse_token(t),
{
    let ws = white_space();
    lemma_find_one(t, '|');
    match find(t, seq!['|']) {
        Some(i) => {
            let head = t.take(i);
            let tail = t.skip(i + 1);
            assert(!head.contains('#')) by {
                if head.contains('#') {
                    let j = choose|j: int| 0 <= j < head.len() && head[j] == '#';
                    assert(t[j] == '#');
                }
            }
            assert(!tail.contains('\'')) by {
                if tail.contains('\'') {
                    let j = choose|j: int| 0 <= j < tail.len() && tail[j] == '\'';
                    assert(t[j + i + 1] == '\'');
                }
            }
            let page = trim(head);
            lemma_trim_matches_within(head, ws, '#');
            lemma_trim_matches_within(head, ws, '|');
            lemma_find_one(page, '#');
            lemma_find_one(page, '|');
            lemma_trim_matches_idempotent(head, ws);
            let x = trim(tail);
            lemma_trim_matches_within(tail, ws, '\'');
            lemma_trim_absent(x, '\'');
            lemma_trim_matches_idempotent(tail, ws);
        },
        None => {
            lemma_trim_matches_within(t, ws, '|');
            lemma_find_one(trim(t), '|');
            lemma_trim_matches_idempotent(t, ws);
        },
    }
    lemma_parse_round_trip(parse_token(t));
}

/// Whether `c` is an ASCII letter.
fn is_letter(c: char) -> (b: bool)
    ensures
        b == is_ascii_letter(c),
{
    ('A' <= c && c <= 'Z') || ('a' <= c && c <= 'z')
}

/// Whether what stands in `text` from `from` on begins with a scheme: the
/// character behind the leading letters decides, and nothing behind it can
/// change the answer.
fn has_scheme_from(text: &Vec<char>, from: usize) -> (b: bool)
    requires
        from <= text.len(),
    ensures
        b == has_scheme(text@.skip(from as int)),
{
    let ghost rest = text@.skip(from as int);
    let mut k: usize = from;
    while k < text.len() && is_letter(text[k])
        invariant
            from <= k <= text.len(),
            rest == text@.skip(from as int),
            forall|j: int| 0 <= j < k - from ==> is_ascii_letter(#[trigger] rest[j]),
        decreases text.len() - k,
    {
        k += 1;
    }
    if k == text.len() {
        proof {
            if has_scheme(rest) {
                let n = choose|n: int| is_scheme_of(rest, n);
                assert(is_ascii_letter(rest[n]));
            }
        }
        return false;
    }
    proof {
        lemma_scheme_is_local(rest, k - from);
    }
    k > from && text[k] == ':'
}

/// Where the token of the link that opens at `begin` starts and ends.
pub fn token_range(page: &Vec<char>, begin: usize) -> (r: Option<(usize, usize)>)
    requires
        matches_at(page@, seq!['[', '['], begin as int),
    ensures
        match token_at(page@, begin as int) {
            Some(t) => r matches Some((from, to)) && from == begin + 2 && from <= to <= page.len()
                && t == page@.subrange(from as int, to as int),
            None => r is None,
        },
{
    let ghost rest = page@.skip(begin + 2);
    if begin + 2 < page.len() && page[begin + 2] == '#' {
        assert(rest.subrange(0, 1) =~= seq!['#']);
        return None;
    }
    proof {
        if starts_with(rest, seq!['#']) {
            assert(rest.subrange(0, 1)[0] == '#');
        }
    }
    if has_scheme_from(page, begin + 2) {
        return None;
    }
    let close: Vec<char> = vec![']', ']'];
    assert(close@ =~= seq![']', ']']);
    match find_in(page, &close, begin) {
        Some(end) => {
            proof {
                lemma_find_from(page@, close@, begin as int);
                assert(page@.subrange(begin as int, begin + 2)[0] == '[');
                if end == begin {
                    assert(page@.subrange(end as int, end + 2)[0] == ']');
                }
                assert(page@.subrange(begin as int, begin + 2)[1] == '[');
                if end == begin + 1 {
                    assert(page@.subrange(end as int, end + 2)[0] == ']');
                }
            }
            Some((begin + 2, end))
        },
        None => None,
    }
}

/// The link that the characters `t` of a token stand for.
pub fn parse_chars(t: &Vec<char>) -> (a: Anchor)
    ensures
        a@ == parse_token(t@),
{
    let bar: Vec<char> = vec!['|'];
    assert(bar@ =~= seq!['|']);
    match find_in(t, &bar, 0) {
        Some(i) => {
            proof {
                lemma_find_from(t@, bar@, 0);
            }
            let before = trimmed(&slice_of(t, 0, i));
            assert(t@.subrange(0, i as int) =~= t@.take(i as int));
            let hash: Vec<char> = vec!['#'];
            assert(hash@ =~= seq!['#']);
            let page = match find_in(&before, &hash, 0) {
                Some(j) => {
                    proof {
                        lemma_find_from(before@, hash@, 0);
                    }
                    assert(before@.subrange(0, j as int) =~= before@.take(j as int));
                    slice_of(&before, 0, j)
                },
                None => before,
            };
            let after = trimmed(&slice_of(t, i + 1, t.len()));
            assert(t@.subrange(i + 1, t.len() as int) =~= t@.skip(i + 1));
            let surface = trimmed_of(&after, '\'');
            if surface.len() == 0 {
                Anchor::Direct(string_of(&page))
            } else {
                Anchor::Label { surface: string_of(&surface), page: string_of(&page) }
            }
        },
        None => Anchor::Direct(string_of(&trimmed(t))),
    }
}

impl Anchor {
    /// Reads the token of a link, the text between `[[` and `]]`.
    pub fn parse(anchor: &str) -> (a: Anchor)
        ensures
            a@ == parse_token(anchor@),
    {
        parse_chars(&chars_of(anchor))
    }

    /// The token of the link that opens at the byte `begin` of `page`, where
    /// `[[` stands.
    pub fn pare_anchor_match(page: &str, begin: usize) -> (r: Option<&str>)
        requires
            exists|i: int|
                0 <= i <= page@.len() && #[trigger] byte_at(page@, i) == begin && matches_at(
                    page@,
                    seq!['[', '['],
                    i,
                ),
        ensures
            forall|i: int|
                0 <= i <= page@.len() && #[trigger] byte_at(page@, i) == begin ==> (match token_at(
                    page@,
                    i,
                ) {
                    Some(t) => r matches Some(s) && s@ == t,
                    None => r is None,
                }),
    {
        let chars = chars_of(page);
        let offsets = byte_offsets(page);
        let at = match char_position(&offsets, begin) {
            Some(at) => at,
            None => {
                proof {
                    let i = choose|i: int|
                        0 <= i <= page@.len() && #[trigger] byte_at(page@, i) == begin;
                    assert(offsets@[i] == begin);
                }
                return None;
            },
        };
        proof {
            assert forall|i: int|
                0 <= i <= page@.len() && #[trigger] byte_at(page@, i) == begin implies i == at by {
                assert(offsets@[at as int] == byte_at(page@, at as int));
                if i < at {
                    lemma_byte_at_ordered(page@, i, at as int);
                }
                if at < i {
                    lemma_byte_at_ordered(page@, at as int, i);
                }
            }
        }
        match token_range(&chars, at) {
            Some((from, to)) => Some(page.substring_char(from, to)),
            None => None,
        }
    }

    /// Whether the token of a link names a file.
    pub fn is_file(anchor: &str) -> (b: bool)
        ensures
            b == (starts_with(anchor@, "File:"@) || starts_with(anchor@, "Image:"@)),
    {
        let t = chars_of(anchor);
        has_prefix(&t, &chars_of("File:")) || has_prefix(&t, &chars_of("Image:"))
    }

    /// Whether the token of a link leads to Wiktionary.
    pub fn is_wiktionary(anchor: &str) -> (b: bool)
        ensures
            b == (starts_with(anchor@, "wikt:"@) || starts_with(anchor@, "wiktionary:"@)),
    {
        let t = chars_of(anchor);
        has_prefix(&t, &chars_of("wikt:")) || has_prefix(&t, &chars_of("wiktionary:"))
    }

    /// Whether the token of a link leads to Wikisource.
    pub fn is_wikisource(anchor: &str) -> (b: bool)
        ensures
            b == starts_with(anchor@, "s:"@),
    {
        has_prefix(&chars_of(anchor), &chars_of("s:"))
    }

    /// Whether the token of a link leads to Wikiversity.
    pub fn is_wikiversity(anchor: &str) -> (b: bool)
        ensures
            b == starts_with(anchor@, "v:"@),
    {
        has_prefix(&chars_of(anchor), &chars_of("v:"))
    }

    /// Whether the token of a link leads to handle.net.
    pub fn is_handle(anchor: &str) -> (b: bool)
        ensures
            b == starts_with(anchor@, "hdl:"@),
    {
        has_prefix(&chars_of(anchor), &chars_of("hdl:"))
    }

    /// The page that the link leads to.
    pub fn target(&self) -> (s: &String)
        ensures
            s@ == self@.target(),
    {
        match self {
            Anchor::Direct(name) => name,
            Anchor::Label { page, .. } => page,
        }
    }

    /// The text under which the link shows.
    pub fn shown(&self) -> (s: &String)
        ensures
            s@ == self@.shown(),
    {
        match self {
            Anchor::Direct(name) => name,
            Anchor::Label { surface, .. } => surface,
        }
    }
}

} // verus!

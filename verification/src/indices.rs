//! The index of a dump: for each offset of a stream, the ids of its pages.

use crate::number::{
    all_digits, decimal, is_digit, lemma_decimal_round_trip, lemma_parse_decimal_of,
    parse_decimal, parse_u64, push_decimal,
};
use crate::text::{
    append, chars_of, find, find_in, has_prefix, lemma_find_from, matches_at, slice_of,
    starts_with, string_of, texts,
};
use std::collections::HashMap;
use vstd::prelude::*;
use vstd::std_specs::iter::IteratorSpec;

verus! {

/// The ids of the pages of each stream, by the offset of the stream.
pub type WikiDumpIndices = HashMap<usize, Vec<usize>>;

/// Why an index could not be read.
#[derive(Clone, Copy, Debug, PartialEq, Eq)]
pub enum IndexError {
    /// The line with this number, counted from zero, is malformed.
    Malformed(usize),
}

/// What stands before the first `sep` of a line, or the whole line.
pub open spec fn first_field(line: Seq<char>, sep: char) -> Seq<char> {
    match find(line, seq![sep]) {
        Some(i) => line.take(i),
        None => line,
    }
}

/// What stands behind the first `sep` of a line, if there is one.
pub open spec fn rest_of(line: Seq<char>, sep: char) -> Option<Seq<char>> {
    match find(line, seq![sep]) {
        Some(i) => Some(line.skip(i + 1)),
        None => None,
    }
}

/// The number that a field writes, if it fits.
pub open spec fn number(field: Seq<char>) -> Option<usize> {
    match parse_decimal(field, usize::MAX as nat) {
        Some(n) => Some(n as usize),
        None => None,
    }
}

/// The offset and the page id of a line of the source index, which reads
/// `offset:id:title`.
pub open spec fn source_line(line: Seq<char>) -> Option<(usize, usize)> {
    match rest_of(line, ':') {
        Some(rest) => match (number(first_field(line, ':')), number(first_field(rest, ':'))) {
            (Some(offset), Some(id)) => Some((offset, id)),
            _ => None,
        },
        None => None,
    }
}

/// The title of a line of the source index: its third field and what follows.
pub open spec fn source_title(line: Seq<char>) -> Option<Seq<char>> {
    match rest_of(line, ':') {
        Some(rest) => rest_of(rest, ':'),
        None => None,
    }
}

/// The line of the source index names a template.
pub open spec fn names_template(line: Seq<char>) -> bool {
    match source_title(line) {
        Some(title) => starts_with(title, "Template:"@),
        None => false,
    }
}

/// The numbers that a list separated by commas writes, if each is one.
pub open spec fn id_list(list: Seq<char>) -> Option<Seq<usize>>
    decreases list.len(),
{
    match find(list, seq![',']) {
        Some(i) => if 0 <= i < list.len() {
            match (number(list.take(i)), id_list(list.skip(i + 1))) {
                (Some(id), Some(rest)) => Some(seq![id] + rest),
                _ => None,
            }
        } else {
            None
        },
        None => match number(list) {
            Some(id) => Some(seq![id]),
            None => None,
        },
    }
}

/// The offset and the page ids of a line of the kept index, which reads
/// `offset id,id,…`.
pub open spec fn kept_line(line: Seq<char>) -> Option<(usize, Seq<usize>)> {
    match rest_of(line, ' ') {
        Some(rest) => match (number(first_field(line, ' ')), id_list(first_field(rest, ' '))) {
            (Some(offset), Some(ids)) => Some((offset, ids)),
            _ => None,
        },
        None => None,
    }
}

/// The ids that the index holds for each offset.
pub open spec fn ids_of(m: Map<usize, Vec<usize>>) -> Map<usize, Seq<usize>> {
    m.map_values(|v: Vec<usize>| v@)
}

/// The index after the page `id` was added to the stream at `offset`.
pub open spec fn with_page(m: Map<usize, Seq<usize>>, offset: usize, id: usize) -> Map<
    usize,
    Seq<usize>,
> {
    if m.dom().contains(offset) {
        m.insert(offset, m[offset].push(id))
    } else {
        m.insert(offset, seq![id])
    }
}

/// A line is read in the kept form where a space stands in it before any
/// colon.
pub open spec fn in_kept_form(line: Seq<char>) -> bool {
    match (find(line, seq![' ']), find(line, seq![':'])) {
        (Some(space), Some(colon)) => space < colon,
        (Some(_), None) => true,
        (None, _) => false,
    }
}

/// The index after one more line was read: a line of the kept form sets the
/// ids of its offset, a line of the source form adds its page.
pub open spec fn with_line(m: Map<usize, Seq<usize>>, line: Seq<char>) -> Option<
    Map<usize, Seq<usize>>,
> {
    if in_kept_form(line) {
        match kept_line(line) {
            Some((offset, ids)) => Some(m.insert(offset, ids)),
            None => None,
        }
    } else {
        match source_line(line) {
            Some((offset, id)) => Some(with_page(m, offset, id)),
            None => None,
        }
    }
}

/// The number that a field writes, if it fits.
pub fn parse_usize(field: &Vec<char>) -> (r: Option<usize>)
    ensures
        r == number(field@),
{
    match parse_u64(field) {
        Some(n) => {
            if n <= usize::MAX as u64 {
                Some(n as usize)
            } else {
                None
            }
        },
        None => None,
    }
}

/// Splits a line at its first `sep`.
fn split_first(line: &Vec<char>, sep: char) -> (r: (Vec<char>, Option<Vec<char>>))
    ensures
        r.0@ == first_field(line@, sep),
        match rest_of(line@, sep) {
            Some(rest) => r.1 matches Some(v) && v@ == rest,
            None => r.1 is None,
        },
{
    let pat: Vec<char> = vec![sep];
    assert(pat@ =~= seq![sep]);
    match find_in(line, &pat, 0) {
        Some(i) => {
            assert(line@.subrange(0, i as int) =~= line@.take(i as int));
            assert(line@.subrange(i + 1, line.len() as int) =~= line@.skip(i + 1));
            (slice_of(line, 0, i), Some(slice_of(line, i + 1, line.len())))
        },
        None => {
            assert(line@.subrange(0, line.len() as int) =~= line@);
            (slice_of(line, 0, line.len()), None)
        },
    }
}

/// The offset and the page id of a line of the source index.
pub fn parse_source_line(line: &str) -> (r: Option<(usize, usize)>)
    ensures
        r == source_line(line@),
{
    let chars = chars_of(line);
    let (first, rest) = split_first(&chars, ':');
    match rest {
        Some(rest) => {
            let (second, _) = split_first(&rest, ':');
            match (parse_usize(&first), parse_usize(&second)) {
                (Some(offset), Some(id)) => Some((offset, id)),
                _ => None,
            }
        },
        None => None,
    }
}

/// Whether a line of the source index names a template.
pub fn is_template_line(line: &str) -> (b: bool)
    ensures
        b == names_template(line@),
{
    let chars = chars_of(line);
    let (_, rest) = split_first(&chars, ':');
    match rest {
        Some(rest) => {
            let (_, title) = split_first(&rest, ':');
            match title {
                Some(title) => has_prefix(&title, &chars_of("Template:")),
                None => false,
            }
        },
        None => false,
    }
}

/// The numbers that a list separated by commas writes.
fn parse_id_list(list: &Vec<char>) -> (r: Option<Vec<usize>>)
    ensures
        match id_list(list@) {
            Some(ids) => r matches Some(v) && v@ == ids,
            None => r is None,
        },
    decreases list@.len(),
{
    let (first, rest) = split_first(list, ',');
    proof {
        lemma_find_from(list@, seq![','], 0);
    }
    match rest {
        Some(rest) => {
            let id = parse_usize(&first);
            let tail = parse_id_list(&rest);
            match (id, tail) {
                (Some(id), Some(tail)) => {
                    let mut out: Vec<usize> = Vec::new();
                    out.push(id);
                    let mut i: usize = 0;
                    while i < tail.len()
                        invariant
                            i <= tail.len(),
                            out@ == seq![id] + tail@.take(i as int),
                        decreases tail.len() - i,
                    {
                        out.push(tail[i]);
                        assert(tail@.take(i as int).push(tail@[i as int]) =~= tail@.take(i + 1));
                        i += 1;
                    }
                    assert(tail@.take(tail.len() as int) =~= tail@);
                    Some(out)
                },
                _ => None,
            }
        },
        None => match parse_usize(&first) {
            Some(id) => {
                let mut out: Vec<usize> = Vec::new();
                out.push(id);
                assert(out@ =~= seq![id]);
                Some(out)
            },
            None => None,
        },
    }
}

/// The offset and the page ids of a line of the kept index.
pub fn parse_kept_line(line: &str) -> (r: Option<(usize, Vec<usize>)>)
    ensures
        match kept_line(line@) {
            Some((offset, ids)) => r matches Some(p) && p.0 == offset && p.1@ == ids,
            None => r is None,
        },
{
    let chars = chars_of(line);
    let (first, rest) = split_first(&chars, ' ');
    match rest {
        Some(rest) => {
            let (second, _) = split_first(&rest, ' ');
            match (parse_usize(&first), parse_id_list(&second)) {
                (Some(offset), Some(ids)) => Some((offset, ids)),
                _ => None,
            }
        },
        None => None,
    }
}

/// Each offset of the index has a page.
pub open spec fn all_filled(m: Map<usize, Vec<usize>>) -> bool {
    forall|k: usize| m.contains_key(k) ==> (#[trigger] m[k])@.len() > 0
}

/// Adds the page `id` to the stream at `offset`.
pub fn add_page(hm: &mut HashMap<usize, Vec<usize>>, offset: usize, id: usize)
    ensures
        ids_of(final(hm)@) == with_page(ids_of(old(hm)@), offset, id),
        all_filled(old(hm)@) ==> all_filled(final(hm)@),
{
    broadcast use vstd::std_specs::hash::group_hash_axioms;

    let ids: Vec<usize> = match hm.remove(&offset) {
        Some(mut ids) => {
            ids.push(id);
            ids
        },
        None => {
            let mut ids: Vec<usize> = Vec::new();
            ids.push(id);
            assert(ids@ =~= seq![id]);
            ids
        },
    };
    hm.insert(offset, ids);
    assert(ids_of(hm@) =~= with_page(ids_of(old(hm)@), offset, id));
}

/// The index of the lines `lines` from the `n`th on, added to `m`; the
/// number of the first malformed line where there is one.
pub open spec fn read_from(m: Map<usize, Seq<usize>>, lines: Seq<Seq<char>>, n: int) -> Result<
    Map<usize, Seq<usize>>,
    IndexError,
>
    decreases lines.len() - n,
{
    if n < 0 || n >= lines.len() {
        Ok(m)
    } else {
        match with_line(m, lines[n]) {
            Some(next) => read_from(next, lines, n + 1),
            None => Err(IndexError::Malformed(n as usize)),
        }
    }
}

/// The index of the lines of the source index from the `n`th on, added to
/// `m`. With `templates`, only the lines that name a template are read.
pub open spec fn built_from(
    m: Map<usize, Seq<usize>>,
    lines: Seq<Seq<char>>,
    n: int,
    templates: bool,
) -> Result<Map<usize, Seq<usize>>, IndexError>
    decreases lines.len() - n,
{
    if n < 0 || n >= lines.len() {
        Ok(m)
    } else if templates && !names_template(lines[n]) {
        built_from(m, lines, n + 1, templates)
    } else {
        match source_line(lines[n]) {
            Some((offset, id)) => built_from(with_page(m, offset, id), lines, n + 1, templates),
            None => Err(IndexError::Malformed(n as usize)),
        }
    }
}

/// What the outcome of reading an index stands for.
pub open spec fn outcome(r: Result<HashMap<usize, Vec<usize>>, IndexError>) -> Result<
    Map<usize, Seq<usize>>,
    IndexError,
> {
    match r {
        Ok(hm) => Ok(ids_of(hm@)),
        Err(e) => Err(e),
    }
}

/// Builds the index from the lines of the source index.
fn build_with(lines: &Vec<String>, templates: bool) -> (r: Result<
    HashMap<usize, Vec<usize>>,
    IndexError,
>)
    ensures
        outcome(r) == built_from(Map::empty(), texts(lines@), 0, templates),
        r matches Ok(hm) ==> all_filled(hm@),
{
    let mut hm: HashMap<usize, Vec<usize>> = HashMap::new();
    let ghost all = texts(lines@);
    let mut i: usize = 0;
    assert(ids_of(hm@) =~= Map::empty());
    while i < lines.len()
        invariant
            i <= lines.len(),
            all == texts(lines@),
            all_filled(hm@),
            built_from(Map::empty(), all, 0, templates) == built_from(
                ids_of(hm@),
                all,
                i as int,
                templates,
            ),
        decreases lines.len() - i,
    {
        assert(all[i as int] == lines@[i as int]@);
        if !templates || is_template_line(lines[i].as_str()) {
            match parse_source_line(lines[i].as_str()) {
                Some((offset, id)) => {
                    add_page(&mut hm, offset, id);
                },
                None => {
                    return Err(IndexError::Malformed(i));
                },
            }
        }
        i += 1;
    }
    Ok(hm)
}

/// The index of all pages, from the lines of the source index. A line that
/// is malformed fails the whole index.
pub fn build_indices_map(lines: &Vec<String>) -> (r: Result<HashMap<usize, Vec<usize>>, IndexError>)
    ensures
        outcome(r) == built_from(Map::empty(), texts(lines@), 0, false),
        r matches Ok(hm) ==> all_filled(hm@),
{
    build_with(lines, false)
}

/// The index of the template pages, from the lines of the source index.
pub fn find_template_indices(lines: &Vec<String>) -> (r: Result<
    HashMap<usize, Vec<usize>>,
    IndexError,
>)
    ensures
        outcome(r) == built_from(Map::empty(), texts(lines@), 0, true),
        r matches Ok(hm) ==> all_filled(hm@),
{
    build_with(lines, true)
}

/// Reads an index from its lines, in the kept form or in the source form.
pub fn read_indices(lines: &Vec<String>) -> (r: Result<HashMap<usize, Vec<usize>>, IndexError>)
    ensures
        outcome(r) == read_from(Map::empty(), texts(lines@), 0),
{
    broadcast use vstd::std_specs::hash::group_hash_axioms;

    let mut hm: HashMap<usize, Vec<usize>> = HashMap::new();
    let ghost all = texts(lines@);
    let space: Vec<char> = vec![' '];
    assert(space@ =~= seq![' ']);
    let colon: Vec<char> = vec![':'];
    assert(colon@ =~= seq![':']);
    let mut i: usize = 0;
    assert(ids_of(hm@) =~= Map::empty());
    while i < lines.len()
        invariant
            i <= lines.len(),
            space@ == seq![' '],
            colon@ == seq![':'],
            all == texts(lines@),
            read_from(Map::empty(), all, 0) == read_from(ids_of(hm@), all, i as int),
        decreases lines.len() - i,
    {
        assert(all[i as int] == lines@[i as int]@);
        let ghost before = ids_of(hm@);
        let chars = chars_of(lines[i].as_str());
        let kept = match (find_in(&chars, &space, 0), find_in(&chars, &colon, 0)) {
            (Some(s), Some(c)) => s < c,
            (Some(_), None) => true,
            (None, _) => false,
        };
        if kept {
            match parse_kept_line(lines[i].as_str()) {
                Some((offset, ids)) => {
                    hm.insert(offset, ids);
                    assert(ids_of(hm@) =~= before.insert(offset, ids@));
                },
                None => {
                    return Err(IndexError::Malformed(i));
                },
            }
        } else {
            match parse_source_line(lines[i].as_str()) {
                Some((offset, id)) => {
                    add_page(&mut hm, offset, id);
                },
                None => {
                    return Err(IndexError::Malformed(i));
                },
            }
        }
        i += 1;
    }
    Ok(hm)
}

/// The ids written with commas between them.
pub open spec fn joined_ids(ids: Seq<usize>) -> Seq<char>
    decreases ids.len(),
{
    if ids.len() == 0 {
        Seq::empty()
    } else if ids.len() == 1 {
        decimal(ids[0] as nat)
    } else {
        joined_ids(ids.drop_last()) + seq![','] + decimal(ids.last() as nat)
    }
}

/// The line of the kept index for one offset: the offset, a space, the ids
/// with commas between them, and a line feed.
pub open spec fn index_line(offset: usize, ids: Seq<usize>) -> Seq<char> {
    decimal(offset as nat) + seq![' '] + joined_ids(ids) + seq!['\n']
}

/// The first place of a character in a text is found: where it stands and
/// does not stand before.
pub proof fn lemma_find_first(s: Seq<char>, c: char, at: int)
    requires
        0 <= at < s.len(),
        s[at] == c,
        forall|i: int| 0 <= i < at ==> s[i] != c,
    ensures
        find(s, seq![c]) == Some(at),
{
    lemma_find_from(s, seq![c], 0);
    assert(s.subrange(at, at + 1) =~= seq![c]);
    assert(matches_at(s, seq![c], at));
    match find(s, seq![c]) {
        Some(i) => {
            if i < at {
                assert(s.subrange(i, i + 1)[0] == s[i]);
            }
        },
        None => {},
    }
}

/// A character that does not stand in a text is not found in it.
pub proof fn lemma_find_absent(s: Seq<char>, c: char)
    requires
        forall|i: int| 0 <= i < s.len() ==> s[i] != c,
    ensures
        find(s, seq![c]) is None,
{
    lemma_find_from(s, seq![c], 0);
    match find(s, seq![c]) {
        Some(i) => {
            assert(s.subrange(i, i + 1)[0] == s[i]);
        },
        None => {},
    }
}

/// A number that fits is read back from its decimal form.
pub proof fn lemma_number_of_decimal(n: usize)
    ensures
        number(decimal(n as nat)) == Some(n),
        all_digits(decimal(n as nat)),
        decimal(n as nat).len() > 0,
{
    lemma_parse_decimal_of(n as nat, usize::MAX as nat);
    lemma_decimal_round_trip(n as nat);
}

/// The ids written with commas between them are the first id, a comma, and
/// the other ids written so.
pub proof fn lemma_joined_ids_first(ids: Seq<usize>)
    requires
        ids.len() >= 2,
    ensures
        joined_ids(ids) == decimal(ids[0] as nat) + seq![','] + joined_ids(ids.drop_first()),
    decreases ids.len(),
{
    let rest = ids.drop_first();
    reveal_with_fuel(joined_ids, 3);
    if ids.len() == 2 {
        assert(ids.drop_last().drop_last() =~= Seq::<usize>::empty());
        assert(rest.drop_last() =~= Seq::<usize>::empty());
        assert(ids.drop_last()[0] == ids[0]);
        assert(rest[0] == ids.last());
    } else {
        lemma_joined_ids_first(ids.drop_last());
        assert(ids.drop_last().drop_first() =~= rest.drop_last());
        assert(rest.last() == ids.last());
        assert(ids.drop_last()[0] == ids[0]);
        assert((decimal(ids[0] as nat) + seq![','] + joined_ids(rest.drop_last())) + seq![',']
            + decimal(ids.last() as nat) =~= decimal(ids[0] as nat) + seq![','] + (joined_ids(
            rest.drop_last(),
        ) + seq![','] + decimal(ids.last() as nat)));
    }
}

/// The ids written with commas between them hold digits and commas only.
pub proof fn lemma_joined_ids_chars(ids: Seq<usize>)
    ensures
        forall|i: int|
            0 <= i < joined_ids(ids).len() ==> is_digit(#[trigger] joined_ids(ids)[i])
                || joined_ids(ids)[i] == ',',
    decreases ids.len(),
{
    let all = joined_ids(ids);
    if ids.len() == 1 {
        lemma_number_of_decimal(ids[0]);
        assert forall|i: int| 0 <= i < all.len() implies is_digit(#[trigger] all[i]) || all[i]
            == ',' by {
            assert(is_digit(decimal(ids[0] as nat)[i]));
        }
    } else if ids.len() >= 2 {
        lemma_joined_ids_chars(ids.drop_last());
        lemma_number_of_decimal(ids.last());
        let head = joined_ids(ids.drop_last());
        let tail = decimal(ids.last() as nat);
        assert(all == head + seq![','] + tail);
        assert forall|i: int| 0 <= i < all.len() implies is_digit(#[trigger] all[i]) || all[i]
            == ',' by {
            if i < head.len() {
                assert(all[i] == head[i]);
            } else if i > head.len() {
                assert(all[i] == tail[i - head.len() - 1]);
                assert(is_digit(tail[i - head.len() - 1]));
            }
        }
    }
}

/// The ids written with commas between them are read back.
pub proof fn lemma_id_list_of_joined(ids: Seq<usize>)
    requires
        ids.len() >= 1,
    ensures
        id_list(joined_ids(ids)) == Some(ids),
    decreases ids.len(),
{
    let first = decimal(ids[0] as nat);
    lemma_number_of_decimal(ids[0]);
    if ids.len() == 1 {
        lemma_find_absent(first, ',');
        assert(seq![ids[0]] =~= ids);
    } else {
        let rest = ids.drop_first();
        lemma_joined_ids_first(ids);
        lemma_id_list_of_joined(rest);
        let list = joined_ids(ids);
        lemma_find_first(list, ',', first.len() as int);
        assert(list.take(first.len() as int) =~= first);
        assert(list.skip(first.len() as int + 1) =~= joined_ids(rest));
        assert(seq![ids[0]] + rest =~= ids);
    }
}

/// A line of the kept index is read back as it was written: the line of an
/// offset and its ids, as it stands in the file before its line feed, is in
/// the kept form and gives the offset and the ids.
pub proof fn lemma_kept_line_round_trip(offset: usize, ids: Seq<usize>)
    requires
        ids.len() >= 1,
    ensures
        index_line(offset, ids).last() == '\n',
        in_kept_form(index_line(offset, ids).drop_last()),
        kept_line(index_line(offset, ids).drop_last()) == Some((offset, ids)),
{
    let head = decimal(offset as nat);
    let list = joined_ids(ids);
    let line = head + seq![' '] + list;
    assert(index_line(offset, ids).drop_last() =~= line);
    lemma_number_of_decimal(offset);
    lemma_joined_ids_chars(ids);
    lemma_id_list_of_joined(ids);
    lemma_find_first(line, ' ', head.len() as int);
    assert(line.take(head.len() as int) =~= head);
    assert(line.skip(head.len() as int + 1) =~= list);
    lemma_find_absent(list, ' ');
    lemma_find_absent(line, ':');
}

/// The line of the kept index for one offset.
pub fn index_line_of(offset: usize, ids: &Vec<usize>) -> (line: String)
    requires
        ids@.len() > 0,
    ensures
        line@ == index_line(offset, ids@),
{
    let mut out: Vec<char> = Vec::new();
    push_decimal(&mut out, offset as u64);
    out.push(' ');
    let ghost head = out@;
    push_decimal(&mut out, ids[0] as u64);
    assert(ids@.take(1) =~= seq![ids@[0]]);
    let mut i: usize = 1;
    while i < ids.len()
        invariant
            1 <= i <= ids.len(),
            out@ == head + joined_ids(ids@.take(i as int)),
        decreases ids.len() - i,
    {
        out.push(',');
        push_decimal(&mut out, ids[i] as u64);
        proof {
            assert(ids@.take(i + 1).drop_last() =~= ids@.take(i as int));
            assert(ids@.take(i + 1).last() == ids@[i as int]);
            assert(out@ =~= head + joined_ids(ids@.take(i + 1)));
        }
        i += 1;
    }
    assert(ids@.take(ids.len() as int) =~= ids@);
    out.push('\n');
    assert(out@ =~= index_line(offset, ids@));
    string_of(&out)
}

/// The numbers stand in ascending order.
pub open spec fn ascending(v: Seq<usize>) -> bool {
    forall|i: int, j: int| 0 <= i < j < v.len() ==> v[i] <= v[j]
}

/// Sorts numbers in ascending order.
///
/// Calls `slice::sort_unstable`, which the standard library documents as
/// sorting the slice: afterwards it holds the same elements in ascending
/// order.
#[verifier::external_body]
fn sort_ascending(v: &mut Vec<usize>)
    ensures
        final(v)@.to_multiset() == old(v)@.to_multiset(),
        ascending(final(v)@),
{
    v.sort_unstable()
}

/// The offsets of the index, each once, in ascending order: the order in
/// which the streams are read.
pub fn sorted_offsets(indices: &HashMap<usize, Vec<usize>>) -> (r: Vec<usize>)
    ensures
        ascending(r@),
        r@.no_duplicates(),
        r@.to_set() == indices@.dom(),
{
    broadcast use vstd::std_specs::hash::group_hash_axioms;
    broadcast use vstd::seq_lib::group_to_multiset_ensures;

    let mut out: Vec<usize> = Vec::new();
    let ghost all = vstd::std_specs::hash::spec_keys_iter(indices).remaining();
    for k in it: indices.keys()
        invariant
            it.seq() == all,
            out@ == all.take(it.index() as int).unref(),
    {
        out.push(*k);
        assert(out@ =~= all.take(it.index() + 1).unref());
    }
    let ghost keys = out@;
    proof {
        assert(all.take(all.len() as int) =~= all);
        assert(keys == all.unref());
        assert(keys.no_duplicates()) by {
            assert forall|i: int, j: int|
                0 <= i < keys.len() && 0 <= j < keys.len() && i != j implies keys[i] != keys[j] by {
                assert(keys[i] == *all[i]);
                assert(keys[j] == *all[j]);
                assert(all[i] != all[j]);
            }
        }
    }
    sort_ascending(&mut out);
    proof {
        keys.lemma_multiset_has_no_duplicates();
        out@.lemma_multiset_has_no_duplicates_conv();
        assert(out@.to_set() =~= keys.to_set()) by {
            assert forall|x: usize| out@.to_set().contains(x) <==> keys.to_set().contains(x) by {
                assert(out@.contains(x) <==> out@.to_multiset().contains(x));
                assert(keys.contains(x) <==> keys.to_multiset().contains(x));
            }
        }
    }
    out
}

/// Where the stream with the number `i` ends, among streams that begin at
/// `offsets` in a multistream of `len` bytes: where the next stream begins,
/// and at the end of the multistream for the last.
pub open spec fn stream_end(offsets: Seq<usize>, len: usize, i: int) -> usize {
    if i + 1 < offsets.len() {
        offsets[i + 1]
    } else {
        len
    }
}

/// The ranges of the streams that begin at `offsets`, in a multistream of
/// `len` bytes: each leads from its offset to the offset of the next, the
/// last to the end.
pub fn stream_ranges(offsets: &Vec<usize>, len: usize) -> (r: Vec<(usize, usize)>)
    ensures
        r@.len() == offsets@.len(),
        forall|i: int|
            0 <= i < r@.len() ==> #[trigger] r@[i] == (offsets@[i], stream_end(offsets@, len, i)),
{
    let mut out: Vec<(usize, usize)> = Vec::new();
    let mut i: usize = 0;
    while i < offsets.len()
        invariant
            i <= offsets.len(),
            out@.len() == i,
            forall|j: int|
                0 <= j < i ==> #[trigger] out@[j] == (offsets@[j], stream_end(offsets@, len, j)),
        decreases offsets.len() - i,
    {
        let end = if i + 1 < offsets.len() {
            offsets[i + 1]
        } else {
            len
        };
        out.push((offsets[i], end));
        i += 1;
    }
    out
}

/// The lines of the kept index for the given offsets, in their order.
pub open spec fn index_lines(m: Map<usize, Vec<usize>>, offsets: Seq<usize>) -> Seq<Seq<char>> {
    offsets.map_values(|o: usize| index_line(o, m[o]@))
}

/// The lines of the kept index: one line for each offset, by ascending
/// offset.
pub fn write_indices(hs: &HashMap<usize, Vec<usize>>) -> (r: Vec<String>)
    requires
        all_filled(hs@),
    ensures
        is_kept_form(r@, hs@),
{
    broadcast use vstd::std_specs::hash::group_hash_axioms;

    let offsets = sorted_offsets(hs);
    let mut out: Vec<String> = Vec::new();
    let mut i: usize = 0;
    while i < offsets.len()
        invariant
            i <= offsets.len(),
            offsets@.to_set() == hs@.dom(),
            all_filled(hs@),
            out@.len() == i,
            forall|j: int|
                0 <= j < i ==> (#[trigger] out@[j])@ == index_line(offsets@[j], hs@[offsets@[j]]@),
        decreases offsets.len() - i,
    {
        let offset = offsets[i];
        assert(offsets@.to_set().contains(offset)) by {
            assert(offsets@.contains(offsets@[i as int]));
        }
        match hs.get(&offset) {
            Some(ids) => {
                out.push(index_line_of(offset, ids));
            },
            None => {
                out.push(String::new());
            },
        }
        i += 1;
    }
    assert(texts(out@) =~= index_lines(hs@, offsets@));
    out
}

/// The line that names the page of a line of the source index: the page id,
/// a tab, the title and a line feed; none for a line without two colons.
pub open spec fn title_line(line: Seq<char>) -> Option<Seq<char>> {
    match rest_of(line, ':') {
        Some(rest) => match rest_of(rest, ':') {
            Some(title) => Some(first_field(rest, ':') + seq!['\t'] + title + seq!['\n']),
            None => None,
        },
        None => None,
    }
}

/// The line that names the page of a line of the source index.
pub fn title_line_of(line: &str) -> (r: Option<String>)
    ensures
        match title_line(line@) {
            Some(l) => r matches Some(s) && s@ == l,
            None => r is None,
        },
{
    let chars = chars_of(line);
    let (_, rest) = split_first(&chars, ':');
    match rest {
        Some(rest) => {
            let (id, title) = split_first(&rest, ':');
            match title {
                Some(title) => {
                    let mut out = id;
                    out.push('\t');
                    append(&mut out, &title);
                    out.push('\n');
                    Some(string_of(&out))
                },
                None => None,
            }
        },
        None => None,
    }
}

/// The lines that name the pages of the lines of the source index from the
/// `n`th on, in order.
pub open spec fn title_lines_from(lines: Seq<Seq<char>>, n: int) -> Seq<Seq<char>>
    decreases lines.len() - n,
{
    if n < 0 || n >= lines.len() {
        Seq::empty()
    } else {
        match title_line(lines[n]) {
            Some(l) => seq![l] + title_lines_from(lines, n + 1),
            None => title_lines_from(lines, n + 1),
        }
    }
}

/// The lines that name the pages of a source index, in order.
pub fn write_title_pageids(indices: &Vec<String>) -> (r: Vec<String>)
    ensures
        texts(r@) == title_lines_from(texts(indices@), 0),
{
    let ghost all = texts(indices@);
    let mut out: Vec<String> = Vec::new();
    let mut i: usize = 0;
    assert(texts(out@) =~= Seq::empty());
    while i < indices.len()
        invariant
            i <= indices.len(),
            all == texts(indices@),
            title_lines_from(all, 0) == texts(out@) + title_lines_from(all, i as int),
        decreases indices.len() - i,
    {
        assert(all[i as int] == indices@[i as int]@);
        match title_line_of(indices[i].as_str()) {
            Some(l) => {
                let ghost before = out@;
                out.push(l);
                assert(texts(out@) =~= texts(before).push(l@));
                assert(texts(before) + (seq![l@] + title_lines_from(all, i + 1))
                    =~= texts(out@) + title_lines_from(all, i + 1));
            },
            None => {},
        }
        i += 1;
    }
    assert(texts(out@) + Seq::<Seq<char>>::empty() =~= texts(out@));
    out
}

/// How the lines of the kept index stand to the index: by ascending offset,
/// one line for each.
pub open spec fn is_kept_form(lines: Seq<String>, m: Map<usize, Vec<usize>>) -> bool {
    exists|offsets: Seq<usize>|
        {
            &&& ascending(offsets)
            &&& offsets.no_duplicates()
            &&& offsets.to_set() == m.dom()
            &&& texts(lines) == #[trigger] index_lines(m, offsets)
        }
}

/// The index of the template pages of a source index, and the lines under
/// which it is kept.
pub fn write_template_indices(index: &Vec<String>) -> (r: Result<
    (HashMap<usize, Vec<usize>>, Vec<String>),
    IndexError,
>)
    ensures
        match built_from(Map::empty(), texts(index@), 0, true) {
            Ok(m) => r matches Ok(p) && ids_of(p.0@) == m && is_kept_form(p.1@, p.0@),
            Err(e) => r matches Err(f) && f == e,
        },
{
    match find_template_indices(index) {
        Ok(hx) => {
            let lines = write_indices(&hx);
            Ok((hx, lines))
        },
        Err(e) => Err(e),
    }
}

/// The index of all pages of a source index, and the lines under which it
/// is kept.
pub fn write_all_indices(index: &Vec<String>) -> (r: Result<
    (HashMap<usize, Vec<usize>>, Vec<String>),
    IndexError,
>)
    ensures
        match built_from(Map::empty(), texts(index@), 0, false) {
            Ok(m) => r matches Ok(p) && ids_of(p.0@) == m && is_kept_form(p.1@, p.0@),
            Err(e) => r matches Err(f) && f == e,
        },
{
    match build_indices_map(index) {
        Ok(hx) => {
            let lines = write_indices(&hx);
            Ok((hx, lines))
        },
        Err(e) => Err(e),
    }
}

} // verus!

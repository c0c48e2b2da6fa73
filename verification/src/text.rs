//! Plain text: splitting, trimming, ordering and printing of strings.
use itertools::Itertools;
use vstd::prelude::*;

verus! {

/// The characters of each string of a list.
pub open spec fn texts(list: Seq<String>) -> Seq<Seq<char>> {
    list.map_values(|s: String| s@)
}

// ---------------------------------------------------------------------------
// Order
// ---------------------------------------------------------------------------

/// Lexicographic order by code point.
pub open spec fn text_lt(a: Seq<char>, b: Seq<char>) -> bool
    decreases a.len(),
{
    if b.len() == 0 {
        false
    } else if a.len() == 0 {
        true
    } else if a[0] != b[0] {
        a[0] < b[0]
    } else {
        text_lt(a.drop_first(), b.drop_first())
    }
}

pub proof fn lemma_text_lt_irreflexive(a: Seq<char>)
    ensures
        !text_lt(a, a),
    decreases a.len(),
{
    if a.len() > 0 {
        lemma_text_lt_irreflexive(a.drop_first());
    }
}

pub proof fn lemma_text_lt_transitive(a: Seq<char>, b: Seq<char>, c: Seq<char>)
    requires
        text_lt(a, b),
        text_lt(b, c),
    ensures
        text_lt(a, c),
    decreases a.len(),
{
    if a.len() > 0 && a[0] == b[0] && b[0] == c[0] {
        lemma_text_lt_transitive(a.drop_first(), b.drop_first(), c.drop_first());
    }
}

pub proof fn lemma_text_lt_total(a: Seq<char>, b: Seq<char>)
    ensures
        text_lt(a, b) || a == b || text_lt(b, a),
    decreases a.len(),
{
    if a.len() > 0 && b.len() > 0 && a[0] == b[0] {
        lemma_text_lt_total(a.drop_first(), b.drop_first());
        if a.drop_first() == b.drop_first() {
            assert(a =~= seq![a[0]] + a.drop_first());
            assert(b =~= seq![b[0]] + b.drop_first());
        }
    } else if a.len() == 0 && b.len() == 0 {
        assert(a =~= b);
    }
}

// ---------------------------------------------------------------------------
// Characters
// ---------------------------------------------------------------------------

/// Appends one character.
///
/// [`String::push`]: the string gains the character at its end.
pub assume_specification[ String::push ](s: &mut String, ch: char)
    ensures
        final(s)@ == old(s)@.push(ch),
;

/// The characters of `text`, in order.
pub fn chars_of(text: &str) -> (r: Vec<char>)
    ensures
        r@ == text@,
{
    let mut r: Vec<char> = Vec::new();
    for c in it: text.chars()
        invariant
            r@ == text@.take(it.index() as int),
            it.seq() == text@,
    {
        r.push(c);
    }
    r
}

/// The characters `from..to` of `chars` as a string.
pub fn string_of(chars: &Vec<char>, from: usize, to: usize) -> (r: String)
    requires
        from <= to <= chars@.len(),
    ensures
        r@ == chars@.subrange(from as int, to as int),
{
    let mut r = String::new();
    let mut i: usize = from;
    while i < to
        invariant
            from <= i <= to <= chars@.len(),
            r@ == chars@.subrange(from as int, i as int),
        decreases to - i,
    {
        r.push(chars[i]);
        i += 1;
    }
    r
}

/// Whether two texts are the same.
pub fn same_text(a: &str, b: &str) -> (r: bool)
    ensures
        r == (a@ == b@),
{
    a.to_owned() == b.to_owned()
}

/// Whether `a` comes before `b` in lexicographic order.
pub fn text_before(a: &str, b: &str) -> (r: bool)
    ensures
        r == text_lt(a@, b@),
{
    let left = chars_of(a);
    let right = chars_of(b);
    let mut i: usize = 0;
    proof {
        assert(left@.skip(0) =~= left@);
        assert(right@.skip(0) =~= right@);
    }
    while i < left.len() && i < right.len() && left[i] == right[i]
        invariant
            i <= left@.len(),
            i <= right@.len(),
            left@ == a@,
            right@ == b@,
            text_lt(a@, b@) == text_lt(left@.skip(i as int), right@.skip(i as int)),
        decreases left@.len() - i,
    {
        proof {
            assert(left@.skip(i as int).drop_first() =~= left@.skip(i as int + 1));
            assert(right@.skip(i as int).drop_first() =~= right@.skip(i as int + 1));
        }
        i += 1;
    }
    if i >= right.len() {
        false
    } else if i >= left.len() {
        true
    } else {
        left[i] < right[i]
    }
}

// ---------------------------------------------------------------------------
// White space
// ---------------------------------------------------------------------------

/// The characters with the Unicode property `White_Space`.
pub open spec fn is_white_space(c: char) -> bool {
    let v = c as u32;
    ||| 0x9 <= v <= 0xd
    ||| v == 0x20
    ||| v == 0x85
    ||| v == 0xa0
    ||| v == 0x1680
    ||| 0x2000 <= v <= 0x200a
    ||| v == 0x2028
    ||| v == 0x2029
    ||| v == 0x202f
    ||| v == 0x205f
    ||| v == 0x3000
}

/// `s` without the white space at its start.
pub open spec fn trimmed_start(s: Seq<char>) -> Seq<char>
    decreases s.len(),
{
    if s.len() > 0 && is_white_space(s[0]) {
        trimmed_start(s.drop_first())
    } else {
        s
    }
}

/// `s` without the white space at its end.
pub open spec fn trimmed_end(s: Seq<char>) -> Seq<char>
    decreases s.len(),
{
    if s.len() > 0 && is_white_space(s.last()) {
        trimmed_end(s.drop_last())
    } else {
        s
    }
}

/// `s` without the white space at either end.
pub open spec fn trimmed(s: Seq<char>) -> Seq<char> {
    trimmed_end(trimmed_start(s))
}

proof fn lemma_trimmed_start(s: Seq<char>)
    ensures
        trimmed_start(s).len() > 0 ==> !is_white_space(trimmed_start(s)[0]),
    decreases s.len(),
{
    if s.len() > 0 && is_white_space(s[0]) {
        lemma_trimmed_start(s.drop_first());
    }
}

proof fn lemma_trimmed_end(s: Seq<char>)
    ensures
        trimmed_end(s).len() > 0 ==> !is_white_space(trimmed_end(s).last()) && trimmed_end(s)[0]
            == s[0],
    decreases s.len(),
{
    if s.len() > 0 && is_white_space(s.last()) {
        lemma_trimmed_end(s.drop_last());
    }
}

/// What is trimmed neither starts nor ends with white space.
pub proof fn trimmed_has_no_white_space_around(s: Seq<char>)
    ensures
        trimmed(s).len() > 0 ==> !is_white_space(trimmed(s)[0]) && !is_white_space(
            trimmed(s).last(),
        ),
{
    lemma_trimmed_start(s);
    lemma_trimmed_end(trimmed_start(s));
}

proof fn lemma_part_free(s: Seq<char>, from: int, to: int, c: char)
    requires
        0 <= from <= to <= s.len(),
        !s.contains(c),
    ensures
        !s.subrange(from, to).contains(c),
{
    let part = s.subrange(from, to);
    if part.contains(c) {
        let i = choose|i: int| 0 <= i < part.len() && part[i] == c;
        assert(s[from + i] == c);
    }
}

/// Trimming brings in no characters.
pub(crate) proof fn lemma_trimmed_free(s: Seq<char>, c: char)
    requires
        !s.contains(c),
    ensures
        !trimmed(s).contains(c),
{
    lemma_trimmed_start_free(s, c);
    lemma_trimmed_end_free(trimmed_start(s), c);
}

proof fn lemma_trimmed_start_free(s: Seq<char>, c: char)
    requires
        !s.contains(c),
    ensures
        !trimmed_start(s).contains(c),
    decreases s.len(),
{
    if s.len() > 0 && is_white_space(s[0]) {
        lemma_part_free(s, 1, s.len() as int, c);
        lemma_trimmed_start_free(s.drop_first(), c);
    }
}

proof fn lemma_trimmed_end_free(s: Seq<char>, c: char)
    requires
        !s.contains(c),
    ensures
        !trimmed_end(s).contains(c),
    decreases s.len(),
{
    if s.len() > 0 && is_white_space(s.last()) {
        lemma_part_free(s, 0, s.len() - 1, c);
        lemma_trimmed_end_free(s.drop_last(), c);
    }
}

/// White space at the end does not change what is trimmed.
pub proof fn trimming_drops_white_space_at_the_end(s: Seq<char>, c: char)
    requires
        is_white_space(c),
    ensures
        trimmed(s.push(c)) == trimmed(s),
    decreases s.len(),
{
    let longer = s.push(c);
    if s.len() == 0 {
        assert(longer.drop_first() =~= s);
        assert(trimmed_start(longer) == trimmed_start(s));
    } else if is_white_space(s[0]) {
        assert(longer.drop_first() =~= s.drop_first().push(c));
        trimming_drops_white_space_at_the_end(s.drop_first(), c);
    } else {
        assert(longer.drop_last() =~= s);
    }
}

/// [`str::trim`]: the text without leading and trailing white space, in the
/// sense of the Unicode property `White_Space`.
pub assume_specification[ str::trim ](s: &str) -> (r: &str)
    ensures
        r@ == trimmed(s@),
;

/// [`str::trim_end`]: the text without trailing white space, in the sense of
/// the Unicode property `White_Space`.
pub assume_specification[ str::trim_end ](s: &str) -> (r: &str)
    ensures
        r@ == trimmed_end(s@),
;

// ---------------------------------------------------------------------------
// Splitting
// ---------------------------------------------------------------------------

/// Whether `part` stands in `s` at position `i`.
pub open spec fn stands_at(s: Seq<char>, part: Seq<char>, i: int) -> bool {
    0 <= i && i + part.len() <= s.len() && s.subrange(i, i + part.len()) == part
}

/// The first position from `i` on at which `part` stands in `s`.
pub open spec fn position_from(s: Seq<char>, part: Seq<char>, i: int) -> Option<int>
    decreases s.len() + 1 - i,
{
    if i > s.len() {
        None
    } else if stands_at(s, part, i) {
        Some(i)
    } else {
        position_from(s, part, i + 1)
    }
}

/// The pieces of `s` between the occurrences of `separator`, which are taken
/// from the left and do not overlap. An empty separator stands before, after
/// and between all characters.
pub open spec fn split_on(s: Seq<char>, separator: Seq<char>) -> Seq<Seq<char>>
    decreases s.len(),
{
    if separator.len() == 0 {
        seq![Seq::empty()] + s.map_values(|c: char| seq![c]) + seq![Seq::empty()]
    } else {
        match position_from(s, separator, 0) {
            Some(i) => if 0 <= i && i + separator.len() <= s.len() {
                seq![s.take(i)] + split_on(s.skip(i + separator.len()), separator)
            } else {
                seq![s]
            },
            None => seq![s],
        }
    }
}

pub(crate) proof fn lemma_position_from(s: Seq<char>, part: Seq<char>, i: int)
    requires
        0 <= i,
    ensures
        match position_from(s, part, i) {
            Some(k) => i <= k && stands_at(s, part, k) && forall|j: int|
                i <= j < k ==> !stands_at(s, part, j),
            None => forall|j: int| i <= j ==> !stands_at(s, part, j),
        },
    decreases s.len() + 1 - i,
{
    if i <= s.len() && !stands_at(s, part, i) {
        lemma_position_from(s, part, i + 1);
    }
}

/// Whether `part` stands in `chars` at position `i`.
fn stands_here(chars: &Vec<char>, part: &Vec<char>, i: usize) -> (r: bool)
    requires
        i <= chars@.len(),
    ensures
        r == stands_at(chars@, part@, i as int),
{
    let len = chars.len();
    if part.len() > len - i {
        return false;
    }
    let mut k: usize = 0;
    while k < part.len()
        invariant
            k <= part@.len(),
            len == chars@.len(),
            i + part@.len() <= chars@.len(),
            forall|j: int| 0 <= j < k ==> chars@[i + j] == part@[j],
        decreases part@.len() - k,
    {
        if chars[i + k] != part[k] {
            assert(chars@.subrange(i as int, i + part@.len())[k as int] != part@[k as int]);
            return false;
        }
        k += 1;
    }
    assert(chars@.subrange(i as int, i + part@.len()) =~= part@);
    true
}

/// The first position from `from` on at which `part` stands in `chars`.
fn find_from(chars: &Vec<char>, part: &Vec<char>, from: usize) -> (r: Option<usize>)
    requires
        from <= chars@.len(),
    ensures
        match r {
            Some(k) => from <= k && stands_at(chars@, part@, k as int) && forall|j: int|
                from <= j < k ==> !stands_at(chars@, part@, j),
            None => forall|j: int| from <= j ==> !stands_at(chars@, part@, j),
        },
{
    let mut i: usize = from;
    loop
        invariant
            from <= i <= chars@.len(),
            forall|j: int| from <= j < i ==> !stands_at(chars@, part@, j),
        decreases chars@.len() - i,
    {
        if stands_here(chars, part, i) {
            return Some(i);
        }
        if i == chars.len() {
            return None;
        }
        i += 1;
    }
}

/// Whether `part` stands anywhere in `text`.
pub fn contains_text(text: &str, part: &str) -> (r: bool)
    ensures
        r == exists|i: int| stands_at(text@, part@, i),
{
    let chars = chars_of(text);
    find_from(&chars, &chars_of(part), 0).is_some()
}

proof fn lemma_stands_at_skip(s: Seq<char>, part: Seq<char>, from: int, i: int)
    requires
        0 <= from <= s.len(),
        0 <= i,
    ensures
        stands_at(s.skip(from), part, i) == stands_at(s, part, from + i),
{
    if i + part.len() <= s.len() - from {
        assert(s.skip(from).subrange(i, i + part.len()) =~= s.subrange(
            from + i,
            from + i + part.len(),
        ));
    }
}

/// One step of `split_on` on what is left of `s` from `from` on.
pub(crate) proof fn lemma_split_on_step(s: Seq<char>, separator: Seq<char>, from: int, found: Option<int>)
    requires
        0 <= from <= s.len(),
        separator.len() > 0,
        match found {
            Some(k) => from <= k && stands_at(s, separator, k) && forall|j: int|
                from <= j < k ==> !stands_at(s, separator, j),
            None => forall|j: int| from <= j ==> !stands_at(s, separator, j),
        },
    ensures
        split_on(s.skip(from), separator) == match found {
            Some(k) => seq![s.subrange(from, k)] + split_on(
                s.skip(k + separator.len()),
                separator,
            ),
            None => seq![s.skip(from)],
        },
{
    let rest = s.skip(from);
    lemma_position_from(rest, separator, 0);
    assert forall|j: int| 0 <= j implies stands_at(rest, separator, j) == stands_at(
        s,
        separator,
        from + j,
    ) by {
        lemma_stands_at_skip(s, separator, from, j);
    }
    match found {
        Some(k) => {
            assert(stands_at(rest, separator, k - from));
            let i = position_from(rest, separator, 0)->0;
            assert(stands_at(s, separator, from + i));
            assert(i == k - from);
            assert(rest.take(i) =~= s.subrange(from, k));
            assert(rest.skip(i + separator.len()) =~= s.skip(k + separator.len()));
        },
        None => {
            if let Some(i) = position_from(rest, separator, 0) {
                assert(stands_at(s, separator, from + i));
            }
        },
    }
}

/// The pieces of `text` between the occurrences of `separator`.
pub fn split_text(text: &str, separator: &str) -> (r: Vec<String>)
    ensures
        texts(r@) == split_on(text@, separator@),
{
    let chars = chars_of(text);
    let sep = chars_of(separator);
    let mut r: Vec<String> = Vec::new();
    if sep.len() == 0 {
        r.push(String::new());
        let mut i: usize = 0;
        while i < chars.len()
            invariant
                i <= chars@.len(),
                chars@ == text@,
                r@.len() == i + 1,
                r@[0]@ == Seq::<char>::empty(),
                forall|j: int| 0 <= j < i ==> (#[trigger] r@[j + 1])@ == seq![text@[j]],
            decreases chars@.len() - i,
        {
            r.push(string_of(&chars, i, i + 1));
            assert(r@[i + 1]@ =~= seq![text@[i as int]]);
            i += 1;
        }
        r.push(String::new());
        assert forall|j: int| 0 < j < r@.len() - 1 implies texts(r@)[j] == seq![text@[j - 1]] by {
            assert(r@[(j - 1) + 1]@ == seq![text@[j - 1]]);
        }
        assert(texts(r@) =~= split_on(text@, separator@));
        return r;
    }
    let mut start: usize = 0;
    let len = chars.len();
    assert(text@.skip(0) =~= text@);
    assert(split_on(text@, separator@) =~= texts(r@) + split_on(text@, separator@));
    loop
        invariant
            start <= chars@.len(),
            len == chars@.len(),
            chars@ == text@,
            sep@ == separator@,
            sep@.len() > 0,
            split_on(text@, separator@) == texts(r@) + split_on(
                text@.skip(start as int),
                separator@,
            ),
        decreases chars@.len() - start,
    {
        let ghost before = texts(r@);
        match find_from(&chars, &sep, start) {
            Some(k) => {
                proof {
                    lemma_split_on_step(text@, separator@, start as int, Some(k as int));
                }
                r.push(string_of(&chars, start, k));
                assert(texts(r@) =~= before.push(text@.subrange(start as int, k as int)));
                start = k + sep.len();
                assert(split_on(text@, separator@) =~= texts(r@) + split_on(
                    text@.skip(start as int),
                    separator@,
                ));
            },
            None => {
                proof {
                    lemma_split_on_step(text@, separator@, start as int, None);
                }
                r.push(string_of(&chars, start, chars.len()));
                assert(text@.subrange(start as int, text@.len() as int) =~= text@.skip(
                    start as int,
                ));
                assert(texts(r@) =~= split_on(text@, separator@));
                return r;
            },
        }
    }
}

/// A character stands where it is first met.
pub(crate) proof fn lemma_position_of_char(piece: Seq<char>, c: char, rest: Seq<char>)
    requires
        !piece.contains(c),
    ensures
        position_from(piece + seq![c] + rest, seq![c], 0) == Some(piece.len() as int),
{
    let s = piece + seq![c] + rest;
    let sep = seq![c];
    let k = piece.len() as int;
    assert(s.subrange(k, k + 1) =~= sep);
    assert(stands_at(s, sep, k));
    assert forall|j: int| 0 <= j < k implies !stands_at(s, sep, j) by {
        if stands_at(s, sep, j) {
            assert(s.subrange(j, j + 1)[0] == sep[0]);
            assert(piece[j] == c);
        }
    }
    lemma_position_from(s, sep, 0);
}

/// A piece without the separator, then the separator, then the rest.
pub(crate) proof fn lemma_split_on_prefix(piece: Seq<char>, c: char, rest: Seq<char>)
    requires
        !piece.contains(c),
    ensures
        split_on(piece + seq![c] + rest, seq![c]) == seq![piece] + split_on(rest, seq![c]),
{
    let s = piece + seq![c] + rest;
    let sep = seq![c];
    let k = piece.len() as int;
    assert(s.subrange(k, k + 1) =~= sep);
    assert forall|j: int| 0 <= j < k implies !stands_at(s, sep, j) by {
        if stands_at(s, sep, j) {
            assert(s.subrange(j, j + 1)[0] == sep[0]);
            assert(piece[j] == c);
        }
    }
    lemma_split_on_step(s, sep, 0, Some(k));
    assert(s.skip(0) =~= s);
    assert(s.subrange(0, k) =~= piece);
    assert(s.skip(k + 1) =~= rest);
}

/// A text without the separator is one piece.
pub(crate) proof fn lemma_split_on_single(s: Seq<char>, c: char)
    requires
        !s.contains(c),
    ensures
        split_on(s, seq![c]) == seq![s],
{
    let sep = seq![c];
    assert forall|j: int| 0 <= j implies !stands_at(s, sep, j) by {
        if stands_at(s, sep, j) {
            assert(s.subrange(j, j + 1)[0] == sep[0]);
            assert(s[j] == c);
        }
    }
    lemma_split_on_step(s, sep, 0, None);
    assert(s.skip(0) =~= s);
}

/// Splitting brings in no characters.
pub(crate) proof fn lemma_pieces_free(s: Seq<char>, separator: Seq<char>, c: char)
    requires
        separator.len() > 0,
        !s.contains(c),
    ensures
        forall|i: int|
            0 <= i < split_on(s, separator).len() ==> !(#[trigger] split_on(s, separator)[i]).contains(
                c,
            ),
    decreases s.len(),
{
    let pieces = split_on(s, separator);
    if let Some(k) = position_from(s, separator, 0) {
        if 0 <= k && k + separator.len() <= s.len() {
            let next = k + separator.len();
            lemma_part_free(s, 0, k, c);
            lemma_part_free(s, next, s.len() as int, c);
            lemma_pieces_free(s.skip(next), separator, c);
            let rest = split_on(s.skip(next), separator);
            assert forall|i: int| 0 <= i < pieces.len() implies !(#[trigger] pieces[i]).contains(
                c,
            ) by {
                if i > 0 {
                    assert(pieces[i] == rest[i - 1]);
                }
            }
        }
    }
}

/// No piece holds the separator.
pub(crate) proof fn lemma_split_on_free(s: Seq<char>, c: char)
    ensures
        forall|i: int|
            0 <= i < split_on(s, seq![c]).len() ==> !(#[trigger] split_on(s, seq![c])[i]).contains(c),
    decreases s.len(),
{
    let sep = seq![c];
    lemma_position_from(s, sep, 0);
    match position_from(s, sep, 0) {
        Some(k) => {
            let head = s.take(k);
            assert(!head.contains(c)) by {
                if head.contains(c) {
                    let j = choose|j: int| 0 <= j < head.len() && head[j] == c;
                    assert(s.subrange(j, j + 1) =~= sep);
                    assert(stands_at(s, sep, j));
                }
            }
            lemma_split_on_free(s.skip(k + 1), c);
            let rest = split_on(s.skip(k + 1), sep);
            assert(split_on(s, sep) == seq![head] + rest);
            assert forall|i: int| 0 <= i < split_on(s, sep).len() implies !(
            #[trigger] split_on(s, sep)[i]).contains(c) by {
                if i > 0 {
                    assert(split_on(s, sep)[i] == rest[i - 1]);
                }
            }
        },
        None => {
            if s.contains(c) {
                let j = choose|j: int| 0 <= j < s.len() && s[j] == c;
                assert(s.subrange(j, j + 1) =~= sep);
                assert(stands_at(s, sep, j));
            }
        },
    }
}

// ---------------------------------------------------------------------------
// Lists
// ---------------------------------------------------------------------------

/// The list without the entries that occur in it before.
pub open spec fn first_occurrences(list: Seq<Seq<char>>) -> Seq<Seq<char>>
    decreases list.len(),
{
    if list.len() == 0 {
        list
    } else {
        let before = first_occurrences(list.drop_last());
        if list.drop_last().contains(list.last()) {
            before
        } else {
            before.push(list.last())
        }
    }
}

/// The entries of the list with `separator` between neighbours.
pub open spec fn joined(list: Seq<Seq<char>>, separator: Seq<char>) -> Seq<char>
    decreases list.len(),
{
    if list.len() == 0 {
        Seq::empty()
    } else if list.len() == 1 {
        list[0]
    } else {
        joined(list.drop_last(), separator) + separator + list.last()
    }
}

pub(crate) proof fn lemma_joined_front(list: Seq<Seq<char>>, separator: Seq<char>)
    requires
        list.len() > 1,
    ensures
        joined(list, separator) == list[0] + separator + joined(list.drop_first(), separator),
    decreases list.len(),
{
    if list.len() == 2 {
        assert(list.drop_last() =~= seq![list[0]]);
        assert(list.drop_first() =~= seq![list[1]]);
        assert(joined(seq![list[0]], separator) == list[0]);
        assert(joined(seq![list[1]], separator) == list[1]);
    } else {
        lemma_joined_front(list.drop_last(), separator);
        let tail = list.drop_first();
        assert(list.drop_last().drop_first() =~= tail.drop_last());
        assert(joined(tail, separator) == joined(tail.drop_last(), separator) + separator
            + list.last());
        assert(joined(list, separator) =~= list[0] + separator + joined(tail, separator));
    }
}

pub(crate) proof fn lemma_first_occurrences(list: Seq<Seq<char>>)
    ensures
        first_occurrences(list).no_duplicates(),
        forall|s: Seq<char>| #[trigger] first_occurrences(list).contains(s) <==> list.contains(s),
        list.no_duplicates() ==> first_occurrences(list) == list,
    decreases list.len(),
{
    if list.len() > 0 {
        let init = list.drop_last();
        lemma_first_occurrences(init);
        let r = first_occurrences(list);
        assert(list =~= init.push(list.last()));
        assert forall|s: Seq<char>| #[trigger] r.contains(s) <==> list.contains(s) by {
            if list.contains(s) {
                let i = choose|i: int| 0 <= i < list.len() && list[i] == s;
                if i < init.len() {
                    assert(init[i] == s);
                    assert(first_occurrences(init).contains(s));
                    let j = choose|j: int|
                        0 <= j < first_occurrences(init).len() && first_occurrences(init)[j] == s;
                    assert(r[j] == s);
                } else if init.contains(s) {
                    assert(first_occurrences(init).contains(s));
                } else {
                    assert(r.last() == s);
                }
            }
            if r.contains(s) {
                let i = choose|i: int| 0 <= i < r.len() && r[i] == s;
                if i < first_occurrences(init).len() {
                    assert(first_occurrences(init)[i] == s);
                    assert(first_occurrences(init).contains(s));
                    assert(init.contains(s));
                    let j = choose|j: int| 0 <= j < init.len() && init[j] == s;
                    assert(list[j] == s);
                } else {
                    assert(list[list.len() - 1] == s);
                }
            }
        }
        assert forall|i: int, j: int| 0 <= i < j < r.len() implies r[i] != r[j] by {
            assert(first_occurrences(init).contains(r[i]));
            assert(init.contains(r[i]));
        }
        if list.no_duplicates() {
            assert(init.no_duplicates());
            assert(!init.contains(list.last()));
        }
    }
}

/// The list without its empty entries.
pub open spec fn non_empty(list: Seq<Seq<char>>) -> Seq<Seq<char>> {
    list.filter(|s: Seq<char>| s.len() > 0)
}

pub(crate) proof fn lemma_non_empty(list: Seq<Seq<char>>)
    ensures
        forall|s: Seq<char>| #[trigger]
            non_empty(list).contains(s) <==> list.contains(s) && s.len() > 0,
        (forall|i: int| 0 <= i < list.len() ==> (#[trigger] list[i]).len() > 0) ==> non_empty(list)
            == list,
    decreases list.len(),
{
    reveal(Seq::filter);
    if list.len() > 0 {
        let init = list.drop_last();
        lemma_non_empty(init);
        assert(list =~= init.push(list.last()));
        let r = non_empty(list);
        assert forall|s: Seq<char>| #[trigger] r.contains(s) <==> list.contains(s) && s.len()
            > 0 by {
            if list.contains(s) && s.len() > 0 {
                let i = choose|i: int| 0 <= i < list.len() && list[i] == s;
                if i < init.len() {
                    assert(init[i] == s);
                    assert(non_empty(init).contains(s));
                    let j = choose|j: int| 0 <= j < non_empty(init).len() && non_empty(init)[j] == s;
                    assert(r[j] == s);
                } else {
                    assert(r.last() == s);
                }
            }
            if r.contains(s) {
                let i = choose|i: int| 0 <= i < r.len() && r[i] == s;
                if i < non_empty(init).len() {
                    assert(non_empty(init)[i] == s);
                    assert(non_empty(init).contains(s));
                    assert(init.contains(s));
                    let j = choose|j: int| 0 <= j < init.len() && init[j] == s;
                    assert(list[j] == s);
                } else {
                    assert(list[list.len() - 1] == s);
                }
            }
        }
        if forall|i: int| 0 <= i < list.len() ==> (#[trigger] list[i]).len() > 0 {
            assert forall|i: int| 0 <= i < init.len() implies (#[trigger] init[i]).len() > 0 by {
                assert(init[i] == list[i]);
            }
        }
    }
}

/// [`Itertools::unique`]: every string that did not come before, in order.
#[verifier::external_body]
pub(crate) fn unique_texts(list: Vec<String>) -> (r: Vec<String>)
    ensures
        texts(r@) == first_occurrences(texts(list@)),
{
    list.into_iter().unique().collect()
}

/// [`Itertools::join`]: the strings one after the other, with the separator
/// between neighbours.
#[verifier::external_body]
pub(crate) fn join_texts(list: &Vec<String>, separator: &str) -> (r: String)
    ensures
        r@ == joined(texts(list@), separator@),
{
    list.iter().join(separator)
}

/// The different non-empty pieces of `text` between the occurrences of
/// `separator`.
pub open spec fn distinct_fields(text: Seq<char>, separator: Seq<char>) -> Seq<Seq<char>> {
    first_occurrences(non_empty(split_on(text, separator)))
}

/// The different non-empty pieces of `text` between the occurrences of
/// `separator`, in order.
pub fn split_distinct(text: &str, separator: &str) -> (r: Vec<String>)
    ensures
        texts(r@) == distinct_fields(text@, separator@),
{
    let pieces = split_text(text, separator);
    let mut kept: Vec<String> = Vec::new();
    let mut i: usize = 0;
    assert(texts(pieces@).take(0) =~= Seq::empty());
    assert(texts(kept@) =~= non_empty(texts(pieces@).take(0)));
    while i < pieces.len()
        invariant
            i <= pieces@.len(),
            texts(kept@) == non_empty(texts(pieces@).take(i as int)),
        decreases pieces@.len() - i,
    {
        let ghost before = texts(kept@);
        proof {
            let next = texts(pieces@).take(i + 1);
            assert(next.drop_last() =~= texts(pieces@).take(i as int));
            assert(next.last() == pieces@[i as int]@);
            reveal(Seq::filter);
        }
        if !pieces[i].as_str().is_empty() {
            kept.push(pieces[i].clone());
            assert(texts(kept@) =~= before.push(pieces@[i as int]@));
        }
        i += 1;
    }
    assert(texts(pieces@).take(i as int) =~= texts(pieces@));
    unique_texts(kept)
}

// ---------------------------------------------------------------------------
// Numbers
// ---------------------------------------------------------------------------

/// The decimal digit of value `d`.
pub open spec fn digit(d: int) -> char {
    if d <= 0 {
        '0'
    } else if d == 1 {
        '1'
    } else if d == 2 {
        '2'
    } else if d == 3 {
        '3'
    } else if d == 4 {
        '4'
    } else if d == 5 {
        '5'
    } else if d == 6 {
        '6'
    } else if d == 7 {
        '7'
    } else if d == 8 {
        '8'
    } else {
        '9'
    }
}

/// The decimal notation of `n`.
pub open spec fn decimal(n: nat) -> Seq<char>
    decreases n,
{
    if n < 10 {
        seq![digit(n as int)]
    } else {
        decimal(n / 10).push(digit((n % 10) as int))
    }
}

fn digit_char(d: usize) -> (r: char)
    requires
        d < 10,
    ensures
        r == digit(d as int),
{
    match d {
        0 => '0',
        1 => '1',
        2 => '2',
        3 => '3',
        4 => '4',
        5 => '5',
        6 => '6',
        7 => '7',
        8 => '8',
        _ => '9',
    }
}

/// The decimal notation of `n`.
pub fn decimal_text(n: usize) -> (r: String)
    ensures
        r@ == decimal(n as nat),
    decreases n,
{
    if n < 10 {
        let mut r = String::new();
        r.push(digit_char(n));
        assert(r@ =~= decimal(n as nat));
        r
    } else {
        let mut r = decimal_text(n / 10);
        r.push(digit_char(n % 10));
        r
    }
}

// ---------------------------------------------------------------------------
// What the operations on texts give
// ---------------------------------------------------------------------------

/// The order of two texts is that of the first characters in which they differ; a
/// text comes before all that go on after it.
pub proof fn first_difference_decides(a: Seq<char>, b: Seq<char>, k: int)
    requires
        0 <= k <= a.len(),
        k < b.len(),
        forall|j: int| 0 <= j < k ==> #[trigger] a[j] == b[j],
        k < a.len() ==> a[k] < b[k],
    ensures
        text_lt(a, b),
        !text_lt(b, a),
    decreases k,
{
    if k > 0 {
        assert(a[0] == b[0]);
        let x = a.drop_first();
        let y = b.drop_first();
        assert forall|j: int| 0 <= j < k - 1 implies #[trigger] x[j] == y[j] by {
            assert(a[j + 1] == b[j + 1]);
        }
        first_difference_decides(x, y, k - 1);
    }
}

/// Trimming takes away nothing but white space, at the start and at the end.
pub proof fn trimming_takes_white_space_only(s: Seq<char>) -> (range: (int, int))
    ensures
        0 <= range.0 <= range.1 <= s.len(),
        trimmed(s) == s.subrange(range.0, range.1),
        forall|i: int| 0 <= i < range.0 ==> is_white_space(#[trigger] s[i]),
        forall|i: int| range.1 <= i < s.len() ==> is_white_space(#[trigger] s[i]),
{
    let from = lemma_trimmed_start_is(s);
    let rest = trimmed_start(s);
    let n = trimming_the_end_takes_white_space_only(rest);
    assert forall|i: int| from + n <= i < s.len() implies is_white_space(#[trigger] s[i]) by {
        assert(rest[i - from] == s[i]);
    }
    assert(rest.take(n) =~= s.subrange(from, from + n));
    (from, from + n)
}

proof fn lemma_trimmed_start_is(s: Seq<char>) -> (from: int)
    ensures
        0 <= from <= s.len(),
        trimmed_start(s) == s.skip(from),
        forall|i: int| 0 <= i < from ==> is_white_space(#[trigger] s[i]),
    decreases s.len(),
{
    if s.len() > 0 && is_white_space(s[0]) {
        let rest = s.drop_first();
        let n = lemma_trimmed_start_is(rest);
        assert(rest.skip(n) =~= s.skip(n + 1));
        assert forall|i: int| 0 <= i < n + 1 implies is_white_space(#[trigger] s[i]) by {
            if i > 0 {
                assert(rest[i - 1] == s[i]);
            }
        }
        n + 1
    } else {
        assert(s.skip(0) =~= s);
        0
    }
}

/// Trimming the end takes away all white space there, and nothing else.
pub proof fn trimming_the_end_takes_white_space_only(s: Seq<char>) -> (n: int)
    ensures
        0 <= n <= s.len(),
        trimmed_end(s) == s.take(n),
        n > 0 ==> !is_white_space(s[n - 1]),
        forall|i: int| n <= i < s.len() ==> is_white_space(#[trigger] s[i]),
    decreases s.len(),
{
    if s.len() > 0 && is_white_space(s.last()) {
        let init = s.drop_last();
        let n = trimming_the_end_takes_white_space_only(init);
        assert(init.take(n) =~= s.take(n));
        assert forall|i: int| n <= i < s.len() implies is_white_space(#[trigger] s[i]) by {
            if i < init.len() {
                assert(init[i] == s[i]);
            }
        }
        n
    } else {
        assert(s.take(s.len() as int) =~= s);
        s.len() as int
    }
}

/// Nothing is joined to nothing, and one text to itself.
pub proof fn joining_at_most_one_text(text: Seq<char>, separator: Seq<char>)
    ensures
        joined(Seq::empty(), separator) == Seq::<char>::empty(),
        joined(seq![text], separator) == text,
{
}

/// Two lists that are joined one after the other have the separator between them.
pub proof fn joining_puts_the_separator_between(
    a: Seq<Seq<char>>,
    b: Seq<Seq<char>>,
    separator: Seq<char>,
)
    requires
        a.len() > 0,
        b.len() > 0,
    ensures
        joined(a + b, separator) == joined(a, separator) + separator + joined(b, separator),
    decreases b.len(),
{
    let all = a + b;
    if b.len() == 1 {
        assert(all.drop_last() =~= a);
        assert(all.last() == b[0]);
    } else {
        let init = b.drop_last();
        joining_puts_the_separator_between(a, init, separator);
        assert(all.drop_last() =~= a + init);
        assert(all.last() == b.last());
        assert(joined(all, separator) =~= joined(a, separator) + separator + joined(b, separator));
    }
}

/// Joining the pieces of a text gives back the text.
pub proof fn pieces_join_to_the_text(s: Seq<char>, separator: Seq<char>)
    requires
        separator.len() > 0,
    ensures
        split_on(s, separator).len() > 0,
        joined(split_on(s, separator), separator) == s,
    decreases s.len(),
{
    lemma_position_from(s, separator, 0);
    let pieces = split_on(s, separator);
    match position_from(s, separator, 0) {
        Some(k) => {
            let rest = s.skip(k + separator.len());
            pieces_join_to_the_text(rest, separator);
            assert(pieces.drop_first() =~= split_on(rest, separator));
            lemma_joined_front(pieces, separator);
            assert(s.take(k) + separator + rest =~= s) by {
                assert(s.subrange(k, k + separator.len()) == separator);
                assert forall|i: int| 0 <= i < s.len() implies (s.take(k) + separator + rest)[i]
                    == s[i] by {
                    if k <= i < k + separator.len() {
                        assert(s.subrange(k, k + separator.len())[i - k] == s[i]);
                    }
                }
            }
        },
        None => {},
    }
}

/// In none of the pieces of a text does the separator stand.
pub proof fn no_piece_holds_the_separator(
    s: Seq<char>,
    separator: Seq<char>,
    i: int,
    k: int,
)
    requires
        separator.len() > 0,
        0 <= i < split_on(s, separator).len(),
        0 <= k,
        k + separator.len() <= split_on(s, separator)[i].len(),
    ensures
        split_on(s, separator)[i].subrange(k, k + separator.len()) != separator,
    decreases s.len(),
{
    lemma_position_from(s, separator, 0);
    let piece = split_on(s, separator)[i];
    match position_from(s, separator, 0) {
        Some(n) => {
            let rest = s.skip(n + separator.len());
            if i == 0 {
                assert(piece.subrange(k, k + separator.len()) =~= s.subrange(
                    k,
                    k + separator.len(),
                ));
                assert(!stands_at(s, separator, k));
            } else {
                assert(piece == split_on(rest, separator)[i - 1]);
                no_piece_holds_the_separator(rest, separator, i - 1, k);
            }
        },
        None => {
            assert(!stands_at(s, separator, k));
        },
    }
}

/// A text in two parts with a separator of one character between them is split
/// into the pieces of both.
pub proof fn splitting_goes_part_by_part(front: Seq<char>, c: char, back: Seq<char>)
    ensures
        split_on(front + seq![c] + back, seq![c]) == split_on(front, seq![c]) + split_on(
            back,
            seq![c],
        ),
    decreases front.len(),
{
    let sep = seq![c];
    let whole = front + sep + back;
    lemma_position_from(front, sep, 0);
    match position_from(front, sep, 0) {
        Some(k) => {
            let piece = front.take(k);
            let rest = front.skip(k + 1);
            assert(front[k] == c) by {
                assert(front.subrange(k, k + 1)[0] == front[k]);
            }
            assert(!piece.contains(c)) by {
                if piece.contains(c) {
                    let j = choose|j: int| 0 <= j < piece.len() && piece[j] == c;
                    assert(front.subrange(j, j + 1) =~= sep);
                    assert(stands_at(front, sep, j));
                }
            }
            assert(whole =~= piece + sep + (rest + sep + back));
            lemma_split_on_prefix(piece, c, rest + sep + back);
            splitting_goes_part_by_part(rest, c, back);
            assert(split_on(whole, sep) =~= split_on(front, sep) + split_on(back, sep));
        },
        None => {
            assert(!front.contains(c)) by {
                if front.contains(c) {
                    let j = choose|j: int| 0 <= j < front.len() && front[j] == c;
                    assert(front.subrange(j, j + 1) =~= sep);
                    assert(stands_at(front, sep, j));
                }
            }
            lemma_split_on_prefix(front, c, back);
            assert(split_on(whole, sep) =~= split_on(front, sep) + split_on(back, sep));
        },
    }
}

/// Taking each entry once loses none and brings in none, and keeps those in front
/// in front.
pub proof fn first_occurrences_keep_what_is_in_front(a: Seq<Seq<char>>, b: Seq<Seq<char>>)
    ensures
        first_occurrences(a).no_duplicates(),
        forall|s: Seq<char>| #[trigger] first_occurrences(a).contains(s) <==> a.contains(s),
        first_occurrences(a).len() <= first_occurrences(a + b).len(),
        first_occurrences(a + b).take(first_occurrences(a).len() as int) == first_occurrences(a),
    decreases b.len(),
{
    lemma_first_occurrences(a);
    let all = a + b;
    let kept = first_occurrences(a);
    if b.len() == 0 {
        assert(all =~= a);
        assert(kept.take(kept.len() as int) =~= kept);
    } else {
        assert(all.drop_last() =~= a + b.drop_last());
        first_occurrences_keep_what_is_in_front(a, b.drop_last());
        assert(first_occurrences(all).take(kept.len() as int) =~= first_occurrences(
            a + b.drop_last(),
        ).take(kept.len() as int));
    }
}

/// The fields of a text are its pieces that are not empty, each of them once.
pub proof fn fields_are_the_non_empty_pieces(
    text: Seq<char>,
    separator: Seq<char>,
    field: Seq<char>,
)
    ensures
        distinct_fields(text, separator).no_duplicates(),
        distinct_fields(text, separator).contains(field) <==> field.len() > 0 && split_on(
            text,
            separator,
        ).contains(field),
{
    let pieces = split_on(text, separator);
    lemma_non_empty(pieces);
    lemma_first_occurrences(non_empty(pieces));
}

/// The fields of what stands in front of a separator come first.
pub proof fn fields_in_front_come_first(front: Seq<char>, c: char, back: Seq<char>)
    ensures
        distinct_fields(front, seq![c]).len() <= distinct_fields(
            front + seq![c] + back,
            seq![c],
        ).len(),
        distinct_fields(front + seq![c] + back, seq![c]).take(
            distinct_fields(front, seq![c]).len() as int,
        ) == distinct_fields(front, seq![c]),
{
    let sep = seq![c];
    splitting_goes_part_by_part(front, c, back);
    Seq::filter_distributes_over_add(
        split_on(front, sep),
        split_on(back, sep),
        |s: Seq<char>| s.len() > 0,
    );
    assert(non_empty(split_on(front + sep + back, sep)) == non_empty(split_on(front, sep))
        + non_empty(split_on(back, sep)));
    first_occurrences_keep_what_is_in_front(
        non_empty(split_on(front, sep)),
        non_empty(split_on(back, sep)),
    );
}

/// A text in which the separator does not stand is its own only field, unless it
/// is empty.
pub proof fn text_without_separator_is_one_field(text: Seq<char>, separator: Seq<char>)
    requires
        separator.len() > 0,
        forall|k: int|
            0 <= k && k + separator.len() <= text.len() ==> #[trigger] text.subrange(
                k,
                k + separator.len(),
            ) != separator,
    ensures
        distinct_fields(text, separator) == if text.len() > 0 {
            seq![text]
        } else {
            Seq::empty()
        },
{
    lemma_position_from(text, separator, 0);
    if let Some(k) = position_from(text, separator, 0) {
        assert(text.subrange(k, k + separator.len()) == separator);
    }
    let pieces = split_on(text, separator);
    assert(pieces == seq![text]);
    reveal(Seq::filter);
    reveal_with_fuel(Seq::filter, 2);
    reveal_with_fuel(first_occurrences, 2);
    assert(pieces.drop_last() =~= Seq::empty());
    if text.len() > 0 {
        assert(non_empty(pieces) =~= seq![text]);
        assert(seq![text].drop_last() =~= Seq::<Seq<char>>::empty());
        assert(first_occurrences(seq![text]) =~= seq![text]);
    } else {
        assert(non_empty(pieces) =~= Seq::empty());
    }
}

/// The number that decimal digits spell.
pub open spec fn number_of(digits: Seq<char>) -> int
    decreases digits.len(),
{
    if digits.len() == 0 {
        0
    } else {
        10 * number_of(digits.drop_last()) + (digits.last() as int - '0' as int)
    }
}

/// The decimal notation of a number is made of digits, spells the number, and has
/// no zero in front that it could do without.
pub proof fn decimal_spells_the_number(n: nat)
    ensures
        number_of(decimal(n)) == n,
        decimal(n).len() > 0,
        forall|i: int| 0 <= i < decimal(n).len() ==> '0' <= #[trigger] decimal(n)[i] <= '9',
        decimal(n).len() > 1 ==> decimal(n)[0] != '0',
    decreases n,
{
    let all = decimal(n);
    if n < 10 {
        assert(all.drop_last() =~= Seq::empty());
        assert(number_of(all.drop_last()) == 0);
    } else {
        let init = decimal(n / 10);
        decimal_spells_the_number(n / 10);
        assert(all.drop_last() =~= init);
        assert forall|i: int| 0 <= i < all.len() implies '0' <= #[trigger] all[i] <= '9' by {
            if i < init.len() {
                assert(all[i] == init[i]);
            }
        }
        assert(all[0] == init[0]);
        if init.len() == 1 {
            reveal_with_fuel(number_of, 2);
            assert(init.drop_last() =~= Seq::empty());
            assert(number_of(init) == init[0] as int - '0' as int);
        }
    }
}

/// The texts of a list of strings are those of its strings, one by one.
pub proof fn texts_go_string_by_string(list: Seq<String>, i: int)
    ensures
        texts(list).len() == list.len(),
        0 <= i < list.len() ==> texts(list)[i] == list[i]@,
{
}

/// A part stands in a text where the text goes on with the characters of the part.
pub proof fn a_part_stands_where_its_characters_do(s: Seq<char>, part: Seq<char>, i: int)
    ensures
        stands_at(s, part, i) <==> 0 <= i && i + part.len() <= s.len() && forall|k: int|
            0 <= k < part.len() ==> s[i + k] == #[trigger] part[k],
{
    if 0 <= i && i + part.len() <= s.len() {
        let here = s.subrange(i, i + part.len());
        if stands_at(s, part, i) {
            assert forall|k: int| 0 <= k < part.len() implies s[i + k] == #[trigger] part[k] by {
                assert(here[k] == s[i + k]);
            }
        }
        if forall|k: int| 0 <= k < part.len() ==> s[i + k] == #[trigger] part[k] {
            assert(here =~= part);
        }
    }
}

} // verus!

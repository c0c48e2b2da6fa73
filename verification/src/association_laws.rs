//! What holds of the associations across several operations.
use crate::desktop_list::{
    adding_undoes_removing, is_listable, lemma_listed_free, lemma_without_absent,
    listed_is_listable, removing_undoes_adding, without,
};
use crate::ini::{ini_parsed, is_writable_key, lemma_parsed_values_free, IniView};
use crate::media_type::{is_canonical, mime_parsed};
use crate::mime_apps::{
    all_mimes, before_first_bad, best_match_is_unique, byte_len, configured, covered,
    from_wildcard, is_best_match, lemma_before_first_bad, spellings, with_added, with_removed,
    with_set, with_unset, MimeAppsView,
};
use crate::mime_file::{
    apps_read, are_writable, associations, is_writable_pair, saved_file_reads_back, saved_text,
    values_in, ADDED, DEFAULT,
};
use crate::mime_map::{
    handlers_of, has_key, is_ordered, lemma_map_of, map_of, with_handlers, Associations,
};
use crate::text::is_white_space;
use crate::wildcard::{
    literal_pattern_matches_only_itself, pattern_matches_itself, wild_matches,
};
use vstd::prelude::*;
use vstd::utf8::encode_utf8;

verus! {

// ---------------------------------------------------------------------------
// Setting and adding
// ---------------------------------------------------------------------------

/// Setting a handler makes it the only one of each of the MIME types, and leaves
/// all others alone.
pub proof fn setting_overwrites(
    map: Associations,
    mimes: Seq<Seq<char>>,
    handler: Seq<char>,
    key: Seq<char>,
)
    ensures
        mimes.contains(key) ==> with_set(map, mimes, handler).contains_key(key) && with_set(
            map,
            mimes,
            handler,
        )[key] == seq![handler],
        !mimes.contains(key) ==> with_set(map, mimes, handler).contains_key(key)
            == map.contains_key(key) && handlers_of(with_set(map, mimes, handler), key)
            == handlers_of(map, key),
    decreases mimes.len(),
{
    if mimes.len() > 0 {
        let init = mimes.drop_last();
        setting_overwrites(map, init, handler, key);
        lemma_contains_last(mimes, key);
    }
}

proof fn lemma_contains_last(list: Seq<Seq<char>>, key: Seq<char>)
    requires
        list.len() > 0,
    ensures
        list.contains(key) == (list.drop_last().contains(key) || list.last() == key),
{
    let init = list.drop_last();
    if list.contains(key) && list.last() != key {
        let i = choose|i: int| 0 <= i < list.len() && list[i] == key;
        assert(init[i] == key);
    }
    if init.contains(key) {
        let i = choose|i: int| 0 <= i < init.len() && init[i] == key;
        assert(list[i] == key);
    }
}

/// Adding a handler appends it to the handlers of each of the MIME types, as
/// often as the MIME type is named, and leaves all others alone.
pub proof fn adding_appends(
    map: Associations,
    mimes: Seq<Seq<char>>,
    handler: Seq<char>,
    key: Seq<char>,
)
    ensures
        with_added(map, mimes, handler).contains_key(key) == (map.contains_key(key)
            || mimes.contains(key)),
        handlers_of(with_added(map, mimes, handler), key) == handlers_of(map, key) + Seq::new(
            mimes.to_multiset().count(key),
            |i: int| handler,
        ),
    decreases mimes.len(),
{
    broadcast use vstd::seq_lib::group_to_multiset_ensures;

    if mimes.len() > 0 {
        let init = mimes.drop_last();
        adding_appends(map, init, handler, key);
        lemma_contains_last(mimes, key);
        assert(init.push(mimes.last()) =~= mimes);
        assert(mimes.to_multiset() =~= init.to_multiset().insert(mimes.last()));
    }
    assert(handlers_of(with_added(map, mimes, handler), key) =~= handlers_of(map, key) + Seq::new(
        mimes.to_multiset().count(key),
        |i: int| handler,
    ));
}

/// The MIME types that a wildcard expands to are those of the list that it
/// covers.
pub proof fn expansion_is_what_is_covered(
    mime_types: Seq<Seq<char>>,
    pattern: Seq<char>,
    mime: Seq<char>,
)
    ensures
        covered(mime_types, pattern).contains(mime) <==> mime_types.contains(mime) && wild_matches(
            pattern,
            mime,
        ),
    decreases mime_types.len(),
{
    reveal(Seq::filter);
    if mime_types.len() > 0 {
        let init = mime_types.drop_last();
        expansion_is_what_is_covered(init, pattern, mime);
        lemma_contains_last(mime_types, mime);
        let all = covered(mime_types, pattern);
        if wild_matches(pattern, mime_types.last()) {
            assert(all.drop_last() =~= covered(init, pattern));
            lemma_contains_last(all, mime);
        }
    }
}

/// A MIME type without wildcards expands to nothing but itself.
pub proof fn plain_mime_expands_to_itself(mime_types: Seq<Seq<char>>, mime: Seq<char>, i: int)
    requires
        !mime.contains('*'),
        !mime.contains('?'),
        0 <= i < covered(mime_types, mime).len(),
    ensures
        covered(mime_types, mime)[i] == mime,
{
    let found = covered(mime_types, mime)[i];
    assert(covered(mime_types, mime).contains(found));
    expansion_is_what_is_covered(mime_types, mime, found);
    literal_pattern_matches_only_itself(mime, found);
}

/// Setting a handler for a wildcard sets it for every MIME type of the list that
/// the wildcard covers.
pub proof fn setting_reaches_every_covered_mime(
    map: Associations,
    mime_types: Seq<Seq<char>>,
    pattern: Seq<char>,
    handler: Seq<char>,
    mime: Seq<char>,
)
    requires
        all_mimes(covered(mime_types, pattern)),
        mime_types.contains(mime),
        wild_matches(pattern, mime),
    ensures
        handlers_of(
            with_set(map, spellings(before_first_bad(covered(mime_types, pattern))), handler),
            mime_parsed(mime)->0,
        ) == seq![handler],
{
    let list = covered(mime_types, pattern);
    let n = list.len() as int;
    let key = mime_parsed(mime)->0;
    assert(list.take(n) =~= list);
    lemma_before_first_bad(list, n);
    expansion_is_what_is_covered(mime_types, pattern, mime);
    let i = choose|i: int| 0 <= i < list.len() && list[i] == mime;
    assert(spellings(list)[i] == key);
    setting_overwrites(map, spellings(list), handler, key);
}

// ---------------------------------------------------------------------------
// Unsetting
// ---------------------------------------------------------------------------

/// Unsetting what was just set leaves no association for the MIME type, and all
/// others as they were.
pub proof fn unsetting_undoes_setting(map: Associations, mime: Seq<char>, handler: Seq<char>)
    ensures
        with_unset(with_set(map, seq![mime], handler), mime) == map.remove(mime),
{
    reveal_with_fuel(with_set, 2);
    assert(seq![mime].drop_last() =~= Seq::empty());
    assert(with_set(map, seq![mime], handler) == map.insert(mime, seq![handler]));
    assert(map.insert(mime, seq![handler]).remove(mime) =~= map.remove(mime));
}

/// Where there is an association for the very MIME type, only that one goes.
pub proof fn unsetting_takes_the_exact_one_first(
    map: Associations,
    mime: Seq<char>,
    key: Seq<char>,
)
    requires
        map.contains_key(mime),
        key != mime,
    ensures
        !with_unset(map, mime).contains_key(mime),
        with_unset(map, mime).contains_key(key) == map.contains_key(key),
        handlers_of(with_unset(map, mime), key) == handlers_of(map, key),
{
}

/// After unsetting a MIME type twice there is no association left that it
/// covers.
pub proof fn unsetting_twice_leaves_nothing_covered(
    map: Associations,
    mime: Seq<char>,
    key: Seq<char>,
)
    requires
        wild_matches(mime, key),
    ensures
        !with_unset(with_unset(map, mime), mime).contains_key(key),
{
    pattern_matches_itself(mime);
}

/// Unsetting a MIME type leaves alone what it does not cover.
pub proof fn unsetting_spares_the_uncovered(map: Associations, mime: Seq<char>, key: Seq<char>)
    requires
        !wild_matches(mime, key),
    ensures
        with_unset(map, mime).contains_key(key) == map.contains_key(key),
        handlers_of(with_unset(map, mime), key) == handlers_of(map, key),
{
    pattern_matches_itself(mime);
}

// ---------------------------------------------------------------------------
// Removing
// ---------------------------------------------------------------------------

/// Where the handler is one of those of the very MIME type, it is taken only
/// from there.
pub proof fn removing_takes_the_exact_one_first(
    map: Associations,
    mime: Seq<char>,
    handler: Seq<char>,
    key: Seq<char>,
)
    requires
        handlers_of(map, mime).contains(handler),
        key != mime,
    ensures
        handlers_of(with_removed(map, mime, handler), mime) == without(
            handlers_of(map, mime),
            handler,
        ),
        with_removed(map, mime, handler).contains_key(key) == map.contains_key(key),
        handlers_of(with_removed(map, mime, handler), key) == handlers_of(map, key),
{
}

/// Otherwise it is taken from every MIME type that is covered.
pub proof fn removing_goes_by_wildcard_next(
    map: Associations,
    mime: Seq<char>,
    handler: Seq<char>,
    key: Seq<char>,
)
    requires
        !handlers_of(map, mime).contains(handler),
        wild_matches(mime, key),
    ensures
        handlers_of(with_removed(map, mime, handler), key) == without(
            handlers_of(map, key),
            handler,
        ),
{
    lemma_without_absent(handlers_of(map, mime), handler);
    lemma_without_absent(Seq::empty(), handler);
}

/// Removing a handler leaves alone what the MIME type does not cover.
pub proof fn removing_spares_the_uncovered(
    map: Associations,
    mime: Seq<char>,
    handler: Seq<char>,
    key: Seq<char>,
)
    requires
        !wild_matches(mime, key),
    ensures
        with_removed(map, mime, handler).contains_key(key) == map.contains_key(key),
        handlers_of(with_removed(map, mime, handler), key) == handlers_of(map, key),
{
    pattern_matches_itself(mime);
}

/// Removing a handler that was just added gives back the handlers of every MIME
/// type, if the handler was not among those of this one before. Where there was no
/// association for the MIME type, there is one without handlers.
pub proof fn removing_undoes_adding_to_a_mime(
    map: Associations,
    mime: Seq<char>,
    handler: Seq<char>,
)
    requires
        !handlers_of(map, mime).contains(handler),
    ensures
        with_removed(with_added(map, seq![mime], handler), mime, handler) == map.insert(
            mime,
            handlers_of(map, mime),
        ),
        map.contains_key(mime) ==> with_removed(
            with_added(map, seq![mime], handler),
            mime,
            handler,
        ) == map,
{
    reveal_with_fuel(with_added, 2);
    assert(seq![mime].drop_last() =~= Seq::empty());
    let own = handlers_of(map, mime);
    let added = map.insert(mime, own.push(handler));
    assert(with_added(map, seq![mime], handler) == added);
    assert(added[mime].last() == handler);
    assert(handlers_of(added, mime).contains(handler));
    removing_undoes_adding(own, handler);
    assert(added.insert(mime, own) =~= map.insert(mime, own));
    if map.contains_key(mime) {
        assert(map.insert(mime, own) =~= map);
    }
}

/// Adding a handler again that was just removed changes nothing, if it is the
/// last of the handlers of the MIME type and occurs once among them.
pub proof fn adding_undoes_removing_from_a_mime(
    map: Associations,
    mime: Seq<char>,
    handler: Seq<char>,
)
    requires
        map.contains_key(mime),
        map[mime].len() > 0,
        map[mime].last() == handler,
        !map[mime].drop_last().contains(handler),
    ensures
        with_added(with_removed(map, mime, handler), seq![mime], handler) == map,
{
    reveal_with_fuel(with_added, 2);
    assert(seq![mime].drop_last() =~= Seq::empty());
    adding_undoes_removing(map[mime], handler);
    assert(map[mime].contains(handler));
    let removed = map.insert(mime, without(map[mime], handler));
    assert(with_removed(map, mime, handler) == removed);
    assert(removed.insert(mime, map[mime]) =~= map);
}

// ---------------------------------------------------------------------------
// Looking up
// ---------------------------------------------------------------------------

/// The handler that was set for a MIME type is the one that opens it.
pub proof fn the_set_handler_is_configured(
    before: Associations,
    pairs: Seq<(Seq<char>, Seq<Seq<char>>)>,
    mime: Seq<char>,
    handler: Seq<char>,
)
    requires
        map_of(pairs) == with_set(before, seq![mime], handler),
    ensures
        configured(pairs, mime) == Some(seq![handler]),
{
    setting_overwrites(before, seq![mime], handler, mime);
    assert(seq![mime][0] == mime);
}

/// An association for the very MIME type is preferred to all wildcards.
pub proof fn exact_match_comes_first(
    pairs: Seq<(Seq<char>, Seq<Seq<char>>)>,
    i: int,
)
    requires
        is_ordered(pairs),
        0 <= i < pairs.len(),
    ensures
        configured(pairs, pairs[i].0) == Some(pairs[i].1),
{
    lemma_map_of(pairs);
}

/// Among the wildcards that cover a MIME type the longest is preferred.
pub proof fn longest_wildcard_comes_next(
    pairs: Seq<(Seq<char>, Seq<Seq<char>>)>,
    mime: Seq<char>,
    i: int,
)
    requires
        !has_key(pairs, mime),
        0 <= i < pairs.len(),
        wild_matches(pairs[i].0, mime),
        forall|j: int|
            0 <= j < pairs.len() && j != i && wild_matches((#[trigger] pairs[j]).0, mime)
                ==> byte_len(pairs[j].0) < byte_len(pairs[i].0),
    ensures
        configured(pairs, mime) == Some(pairs[i].1),
{
    assert(is_best_match(pairs, mime, i));
    let c = choose|c: int| is_best_match(pairs, mime, c);
    best_match_is_unique(pairs, mime, i, c);
}

/// Where associations cover a MIME type, one of them fits it best.
proof fn lemma_best_match_exists(
    pairs: Seq<(Seq<char>, Seq<Seq<char>>)>,
    mime: Seq<char>,
    k: int,
)
    requires
        0 <= k < pairs.len(),
        wild_matches(pairs[k].0, mime),
    ensures
        exists|i: int| is_best_match(pairs, mime, i),
    decreases pairs.len(),
{
    let init = pairs.drop_last();
    let last = pairs.len() - 1;
    if exists|j: int| 0 <= j < init.len() && wild_matches((#[trigger] init[j]).0, mime) {
        let j = choose|j: int| 0 <= j < init.len() && wild_matches((#[trigger] init[j]).0, mime);
        lemma_best_match_exists(init, mime, j);
        let b = choose|b: int| is_best_match(init, mime, b);
        let best = if wild_matches(pairs[last].0, mime) && byte_len(pairs[last].0) > byte_len(
            pairs[b].0,
        ) {
            last
        } else {
            b
        };
        assert forall|j: int|
            0 <= j < pairs.len() && wild_matches((#[trigger] pairs[j]).0, mime) implies byte_len(
            pairs[j].0,
        ) < byte_len(pairs[best].0) || byte_len(pairs[j].0) == byte_len(pairs[best].0) && best
            <= j by {
            if j < last {
                assert(init[j] == pairs[j]);
            }
        }
        assert(is_best_match(pairs, mime, best));
    } else {
        assert forall|j: int| 0 <= j < last implies !wild_matches(
            (#[trigger] pairs[j]).0,
            mime,
        ) by {
            assert(init[j] == pairs[j]);
        }
        assert(is_best_match(pairs, mime, last));
    }
}

/// Handlers are configured for a MIME type exactly if one of the associations
/// covers it.
pub proof fn configured_if_covered(pairs: Seq<(Seq<char>, Seq<Seq<char>>)>, mime: Seq<char>)
    ensures
        configured(pairs, mime) is Some <==> exists|i: int|
            0 <= i < pairs.len() && wild_matches((#[trigger] pairs[i]).0, mime),
{
    if has_key(pairs, mime) {
        let i = choose|i: int| 0 <= i < pairs.len() && #[trigger] pairs[i].0 == mime;
        pattern_matches_itself(mime);
        assert(wild_matches(pairs[i].0, mime));
    } else if exists|i: int| 0 <= i < pairs.len() && wild_matches((#[trigger] pairs[i]).0, mime) {
        let i = choose|i: int|
            0 <= i < pairs.len() && wild_matches((#[trigger] pairs[i]).0, mime);
        lemma_best_match_exists(pairs, mime, i);
    } else {
        assert forall|c: int| !is_best_match(pairs, mime, c) by {
            if is_best_match(pairs, mime, c) {
                assert(wild_matches(pairs[c].0, mime));
            }
        }
    }
}

// ---------------------------------------------------------------------------
// Reading
// ---------------------------------------------------------------------------

proof fn lemma_associations_listable(values: Seq<(Seq<char>, Seq<char>)>, key: Seq<char>)
    requires
        associations(values).contains_key(key),
    ensures
        is_listable(associations(values)[key]),
    decreases values.len(),
{
    if values.len() > 0 {
        listed_is_listable(values.last().1);
        let init = values.drop_last();
        if associations(init).contains_key(key) {
            lemma_associations_listable(init, key);
        }
    }
}

proof fn lemma_associations_free(values: Seq<(Seq<char>, Seq<char>)>, key: Seq<char>)
    requires
        forall|i: int| 0 <= i < values.len() ==> !(#[trigger] values[i]).1.contains('\n'),
        associations(values).contains_key(key),
    ensures
        forall|i: int|
            0 <= i < associations(values)[key].len() ==> !(
            #[trigger] associations(values)[key][i]).contains('\n'),
    decreases values.len(),
{
    if values.len() > 0 {
        let init = values.drop_last();
        assert(!values[values.len() - 1].1.contains('\n'));
        lemma_listed_free(values.last().1, '\n');
        assert forall|i: int| 0 <= i < init.len() implies !(#[trigger] init[i]).1.contains(
            '\n',
        ) by {
            assert(init[i] == values[i]);
        }
        if associations(init).contains_key(key) {
            lemma_associations_free(init, key);
        }
    }
}

proof fn lemma_values_free(items: Seq<IniView>, section: Option<Seq<char>>)
    requires
        forall|i: int|
            0 <= i < items.len() ==> ((#[trigger] items[i]) matches IniView::Value(_, value)
                ==> !value.contains('\n')),
    ensures
        forall|i: int|
            0 <= i < values_in(items, section).len() ==> !(
            #[trigger] values_in(items, section)[i]).1.contains('\n'),
    decreases items.len(),
{
    if items.len() > 0 {
        let init = items.drop_last();
        assert forall|i: int| 0 <= i < init.len() implies ((#[trigger] init[i]) matches
            IniView::Value(_, value) ==> !value.contains('\n')) by {
            assert(init[i] == items[i]);
        }
        lemma_values_free(init, section);
        assert(items[items.len() - 1] matches IniView::Value(_, value) ==> !value.contains('\n'));
        let all = values_in(items, section);
        let before = values_in(init, section);
        assert forall|i: int| 0 <= i < all.len() implies !(#[trigger] all[i]).1.contains('\n') by {
            if i < before.len() {
                assert(all[i] == before[i]);
            }
        }
    }
}

/// The association can stand on a line: its MIME type fits on the left of an
/// equals sign, and its first handler does not start with white space.
pub open spec fn fits_on_a_line(pair: (Seq<char>, Seq<Seq<char>>)) -> bool {
    &&& is_canonical(pair.0)
    &&& is_writable_key(pair.0)
    &&& pair.1.len() > 0 ==> !is_white_space(pair.1[0][0])
}

proof fn lemma_read_pairs_writable(
    text: Seq<char>,
    section: Seq<char>,
    pairs: Seq<(Seq<char>, Seq<Seq<char>>)>,
)
    requires
        ini_parsed(text) is Some,
        is_ordered(pairs),
        forall|i: int| 0 <= i < pairs.len() ==> fits_on_a_line(#[trigger] pairs[i]),
        forall|key: Seq<char>| #[trigger]
            map_of(pairs).contains_key(key) ==> ({
                let read = associations(values_in(ini_parsed(text)->0, Some(section)));
                read.contains_key(key) && map_of(pairs)[key] == read[key]
            }),
    ensures
        are_writable(pairs),
{
    let items = ini_parsed(text)->0;
    let values = values_in(items, Some(section));
    lemma_parsed_values_free(text);
    lemma_values_free(items, Some(section));
    lemma_map_of(pairs);
    assert forall|i: int| 0 <= i < pairs.len() implies is_writable_pair(#[trigger] pairs[i]) by {
        let key = pairs[i].0;
        assert(map_of(pairs).contains_key(key));
        assert(pairs[i].1 == associations(values)[key]);
        lemma_associations_listable(values, key);
        lemma_associations_free(values, key);
        assert(fits_on_a_line(pairs[i]));
    }
}

/// Saving what was read from a file and reading it again gives the same
/// associations, if each of them can stand on a line.
pub proof fn what_was_read_reads_back(
    text: Seq<char>,
    added: Seq<(Seq<char>, Seq<Seq<char>>)>,
    default: Seq<(Seq<char>, Seq<Seq<char>>)>,
)
    requires
        is_ordered(added),
        is_ordered(default),
        apps_read(text) == Some(
            (MimeAppsView { added_associations: map_of(added), default_apps: map_of(default) }),
        ),
        forall|i: int| 0 <= i < added.len() ==> fits_on_a_line(#[trigger] added[i]),
        forall|i: int| 0 <= i < default.len() ==> fits_on_a_line(#[trigger] default[i]),
    ensures
        apps_read(saved_text(added, default)) == apps_read(text),
{
    lemma_read_pairs_writable(text, ADDED@, added);
    lemma_read_pairs_writable(text, DEFAULT@, default);
    saved_file_reads_back(added, default);
    assert(with_handlers(map_of(default)) =~= map_of(default));
}

/// What is read from a file has no default association without handlers.
pub proof fn reading_leaves_no_empty_default(text: Seq<char>, key: Seq<char>)
    requires
        apps_read(text) matches Some(apps) && apps.default_apps.contains_key(key),
    ensures
        apps_read(text)->0.default_apps[key].len() > 0,
{
}

/// What is read from a file names no handler twice for a MIME type, and none
/// that is empty.
pub proof fn reading_leaves_no_duplicates(text: Seq<char>, key: Seq<char>)
    requires
        apps_read(text) is Some,
    ensures
        apps_read(text)->0.default_apps.contains_key(key) ==> is_listable(
            apps_read(text)->0.default_apps[key],
        ),
        apps_read(text)->0.added_associations.contains_key(key) ==> is_listable(
            apps_read(text)->0.added_associations[key],
        ),
{
    let items = ini_parsed(text)->0;
    let added = values_in(items, Some(ADDED@));
    let default = values_in(items, Some(DEFAULT@));
    if associations(added).contains_key(key) {
        lemma_associations_listable(added, key);
    }
    if associations(default).contains_key(key) {
        lemma_associations_listable(default, key);
    }
}

// ---------------------------------------------------------------------------
// What a wildcard reaches
// ---------------------------------------------------------------------------

/// Of a list in two parts a wildcard covers what it covers of each, in order.
pub proof fn covering_goes_type_by_type(
    front: Seq<Seq<char>>,
    mime: Seq<char>,
    pattern: Seq<char>,
)
    ensures
        covered(Seq::empty(), pattern) == Seq::<Seq<char>>::empty(),
        wild_matches(pattern, mime) ==> covered(front.push(mime), pattern) == covered(
            front,
            pattern,
        ).push(mime),
        !wild_matches(pattern, mime) ==> covered(front.push(mime), pattern) == covered(
            front,
            pattern,
        ),
{
    reveal(Seq::filter);
    assert(front.push(mime).drop_last() =~= front);
}

/// What comes before the first bad spelling is the longest part in front of a list
/// that spells MIME types only.
pub proof fn the_expansion_stops_at_the_first_bad_spelling(list: Seq<Seq<char>>)
    ensures
        before_first_bad(list).len() <= list.len(),
        before_first_bad(list) == list.take(before_first_bad(list).len() as int),
        forall|i: int|
            0 <= i < before_first_bad(list).len() ==> mime_parsed(#[trigger] list[i]) is Some,
        before_first_bad(list).len() < list.len() ==> mime_parsed(
            list[before_first_bad(list).len() as int],
        ) is None,
        all_mimes(list) <==> before_first_bad(list).len() == list.len(),
        spellings(list).len() == list.len(),
        forall|i: int|
            0 <= i < list.len() ==> #[trigger] spellings(list)[i] == mime_parsed(list[i])->0,
    decreases list.len(),
{
    let done = before_first_bad(list);
    if list.len() == 0 || mime_parsed(list[0]) is None {
        assert(done =~= list.take(0));
    } else {
        let rest = list.drop_first();
        the_expansion_stops_at_the_first_bad_spelling(rest);
        let n = before_first_bad(rest).len() as int;
        assert(done =~= list.take(n + 1));
        assert forall|i: int| 0 <= i < done.len() implies mime_parsed(
            #[trigger] list[i],
        ) is Some by {
            if i > 0 {
                assert(rest[i - 1] == list[i]);
            }
        }
        if n < rest.len() {
            assert(rest[n] == list[n + 1]);
        }
    }
    if done.len() < list.len() {
        assert(mime_parsed(list[done.len() as int]) is None);
    }
}

/// Adding a handler for a wildcard adds it to every MIME type of the list that the
/// wildcard covers, behind the handlers that are there.
pub proof fn adding_reaches_every_covered_mime(
    map: Associations,
    mime_types: Seq<Seq<char>>,
    pattern: Seq<char>,
    handler: Seq<char>,
    mime: Seq<char>,
)
    requires
        all_mimes(covered(mime_types, pattern)),
        mime_types.contains(mime),
        wild_matches(pattern, mime),
    ensures
        ({
            let before = handlers_of(map, mime_parsed(mime)->0);
            let after = handlers_of(
                with_added(map, spellings(before_first_bad(covered(mime_types, pattern))), handler),
                mime_parsed(mime)->0,
            );
            &&& after.len() > before.len()
            &&& after.take(before.len() as int) == before
            &&& forall|i: int| before.len() <= i < after.len() ==> #[trigger] after[i] == handler
        }),
{
    let list = covered(mime_types, pattern);
    let n = list.len() as int;
    let key = mime_parsed(mime)->0;
    assert(list.take(n) =~= list);
    lemma_before_first_bad(list, n);
    expansion_is_what_is_covered(mime_types, pattern, mime);
    let i = choose|i: int| 0 <= i < list.len() && list[i] == mime;
    assert(spellings(list)[i] == key);
    adding_appends(map, spellings(list), handler, key);
    broadcast use vstd::seq_lib::group_to_multiset_ensures;

    assert(spellings(list).contains(key));
    assert(spellings(list).to_multiset().count(key) > 0);
    let before = handlers_of(map, key);
    let after = handlers_of(with_added(map, spellings(list), handler), key);
    assert(after.take(before.len() as int) =~= before);
}

/// Setting or adding a handler for a wildcard leaves alone every MIME type that no
/// covered text spells.
pub proof fn expansion_leaves_the_rest_alone(
    map: Associations,
    mime_types: Seq<Seq<char>>,
    pattern: Seq<char>,
    handler: Seq<char>,
    key: Seq<char>,
)
    requires
        forall|i: int|
            0 <= i < mime_types.len() && wild_matches(pattern, #[trigger] mime_types[i])
                ==> mime_parsed(mime_types[i]) != Some(key),
    ensures
        ({
            let mimes = spellings(before_first_bad(covered(mime_types, pattern)));
            &&& handlers_of(with_set(map, mimes, handler), key) == handlers_of(map, key)
            &&& handlers_of(with_added(map, mimes, handler), key) == handlers_of(map, key)
            &&& with_set(map, mimes, handler).contains_key(key) == map.contains_key(key)
            &&& with_added(map, mimes, handler).contains_key(key) == map.contains_key(key)
        }),
{
    let list = covered(mime_types, pattern);
    let done = before_first_bad(list);
    let mimes = spellings(done);
    the_expansion_stops_at_the_first_bad_spelling(list);
    assert(!mimes.contains(key)) by {
        if mimes.contains(key) {
            let i = choose|i: int| 0 <= i < mimes.len() && mimes[i] == key;
            assert(mimes[i] == mime_parsed(done[i])->0);
            assert(done[i] == list[i]);
            assert(mime_parsed(list[i]) is Some);
            assert(list.contains(list[i]));
            expansion_is_what_is_covered(mime_types, pattern, list[i]);
            let k = choose|k: int| 0 <= k < mime_types.len() && mime_types[k] == list[i];
            assert(wild_matches(pattern, mime_types[k]));
        }
    }
    setting_overwrites(map, mimes, handler, key);
    adding_appends(map, mimes, handler, key);
    broadcast use vstd::seq_lib::group_to_multiset_ensures;

    assert(mimes.to_multiset().count(key) == 0);
    assert(handlers_of(with_added(map, mimes, handler), key) =~= handlers_of(map, key));
}

/// Without expansion a handler is set for, or added to, the very MIME type and no
/// other, even if it is a wildcard.
pub proof fn without_expansion_one_mime_changes(
    map: Associations,
    mime: Seq<char>,
    handler: Seq<char>,
)
    ensures
        with_set(map, seq![mime], handler) == map.insert(mime, seq![handler]),
        with_added(map, seq![mime], handler) == map.insert(
            mime,
            if map.contains_key(mime) {
                map[mime].push(handler)
            } else {
                seq![handler]
            },
        ),
{
    reveal_with_fuel(with_set, 2);
    reveal_with_fuel(with_added, 2);
    assert(seq![mime].drop_last() =~= Seq::empty());
    assert(Seq::<Seq<char>>::empty().push(handler) =~= seq![handler]);
}

/// Where there is no association for the very MIME type, unsetting takes away
/// exactly those that it covers.
pub proof fn unsetting_goes_by_wildcard_next(
    map: Associations,
    mime: Seq<char>,
    key: Seq<char>,
)
    requires
        !map.contains_key(mime),
    ensures
        with_unset(map, mime).contains_key(key) <==> map.contains_key(key) && !wild_matches(
            mime,
            key,
        ),
        with_unset(map, mime).contains_key(key) ==> with_unset(map, mime)[key] == map[key],
{
}

/// Removing a handler takes away no association, and leaves one for the very MIME
/// type.
pub proof fn removing_keeps_the_associations(
    map: Associations,
    mime: Seq<char>,
    handler: Seq<char>,
    key: Seq<char>,
)
    ensures
        with_removed(map, mime, handler).contains_key(key) <==> map.contains_key(key) || key
            == mime,
{
}

/// The associations that are kept are those that have handlers, as they are.
pub proof fn associations_without_handlers_go(map: Associations, key: Seq<char>)
    ensures
        with_handlers(map).contains_key(key) <==> map.contains_key(key) && map[key].len() > 0,
        with_handlers(map).contains_key(key) ==> with_handlers(map)[key] == map[key],
        handlers_of(map, key) == if map.contains_key(key) {
            map[key]
        } else {
            Seq::empty()
        },
{
}

/// A MIME type has an association exactly if it is paired with handlers.
pub proof fn associations_are_the_pairs(
    pairs: Seq<(Seq<char>, Seq<Seq<char>>)>,
    key: Seq<char>,
    handlers: Seq<Seq<char>>,
)
    requires
        is_ordered(pairs),
    ensures
        map_of(pairs).contains_key(key) && map_of(pairs)[key] == handlers <==> pairs.contains(
            (key, handlers),
        ),
{
    lemma_map_of(pairs);
    if map_of(pairs).contains_key(key) && map_of(pairs)[key] == handlers {
        let i = choose|i: int| 0 <= i < pairs.len() && #[trigger] pairs[i].0 == key;
        assert(pairs[i] == (key, handlers));
    }
    if pairs.contains((key, handlers)) {
        let i = choose|i: int| 0 <= i < pairs.len() && pairs[i] == (key, handlers);
        assert(map_of(pairs)[pairs[i].0] == handlers);
    }
}

/// Among wildcards of the same length in bytes that cover a MIME type, none of
/// which is shorter than another that covers it, the first is preferred.
pub proof fn the_first_of_the_longest_wildcards_is_preferred(
    pairs: Seq<(Seq<char>, Seq<Seq<char>>)>,
    mime: Seq<char>,
    i: int,
)
    requires
        forall|j: int| 0 <= j < pairs.len() ==> (#[trigger] pairs[j]).0 != mime,
        0 <= i < pairs.len(),
        wild_matches(pairs[i].0, mime),
        forall|j: int|
            0 <= j < pairs.len() && wild_matches((#[trigger] pairs[j]).0, mime) ==> encode_utf8(
                pairs[j].0,
            ).len() <= encode_utf8(pairs[i].0).len(),
        forall|j: int|
            0 <= j < i && wild_matches((#[trigger] pairs[j]).0, mime) ==> encode_utf8(
                pairs[j].0,
            ).len() < encode_utf8(pairs[i].0).len(),
    ensures
        configured(pairs, mime) == Some(pairs[i].1),
{
    assert(!has_key(pairs, mime));
    assert forall|j: int|
        0 <= j < pairs.len() && wild_matches((#[trigger] pairs[j]).0, mime) implies byte_len(
        pairs[j].0,
    ) < byte_len(pairs[i].0) || byte_len(pairs[j].0) == byte_len(pairs[i].0) && i <= j by {
        assert(encode_utf8(pairs[j].0).len() <= encode_utf8(pairs[i].0).len());
    }
    assert(is_best_match(pairs, mime, i));
    let c = choose|c: int| is_best_match(pairs, mime, c);
    best_match_is_unique(pairs, mime, i, c);
}

/// Among all wildcards that cover a MIME type the longest in bytes is taken, and
/// the first of those, also where there is an association for the very MIME type.
pub proof fn the_best_wildcard_is_taken(
    pairs: Seq<(Seq<char>, Seq<Seq<char>>)>,
    mime: Seq<char>,
    i: int,
)
    ensures
        from_wildcard(pairs, mime) is Some <==> exists|j: int|
            0 <= j < pairs.len() && wild_matches((#[trigger] pairs[j]).0, mime),
        0 <= i < pairs.len() && wild_matches(pairs[i].0, mime) && (forall|j: int|
            0 <= j < pairs.len() && wild_matches((#[trigger] pairs[j]).0, mime) ==> encode_utf8(
                pairs[j].0,
            ).len() < encode_utf8(pairs[i].0).len() || (encode_utf8(pairs[j].0).len()
                == encode_utf8(pairs[i].0).len() && i <= j)) ==> from_wildcard(pairs, mime)
            == Some(pairs[i].1),
{
    if exists|j: int| 0 <= j < pairs.len() && wild_matches((#[trigger] pairs[j]).0, mime) {
        let j = choose|j: int|
            0 <= j < pairs.len() && wild_matches((#[trigger] pairs[j]).0, mime);
        lemma_best_match_exists(pairs, mime, j);
    }
    if exists|c: int| is_best_match(pairs, mime, c) {
        let c = choose|c: int| is_best_match(pairs, mime, c);
        assert(wild_matches(pairs[c].0, mime));
        if is_best_match(pairs, mime, i) {
            best_match_is_unique(pairs, mime, i, c);
        }
    }
}

} // verus!

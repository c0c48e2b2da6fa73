//! The text of a `mimeapps.list`.
use crate::desktop_list::{
    is_listable, list_text, list_text_reads_back, listed, DesktopList,
};
use crate::error::{Error, ErrorView};
use crate::ini::{
    ini_parsed, ini_text, ini_text_reads_back, is_writable, is_writable_key, is_writable_value,
    line_text, parse_ini, views, write_ini, IniItem, IniView,
};
use crate::media_type::{is_canonical, mime_parsed, Mime};
use crate::mime_apps::{MimeApps, MimeAppsView};
use crate::mime_map::{
    is_ordered, lemma_insert_pair, map_of, order_is_determined, with_handlers, Associations,
    MimeMap,
};
use crate::text::{is_white_space, joined, lemma_joined_front, same_text, text_lt};
use vstd::prelude::*;

verus! {

/// The section of the handlers that can open a MIME type.
pub const ADDED: &'static str = "Added Associations";

/// The section of the handlers that open a MIME type by default.
pub const DEFAULT: &'static str = "Default Applications";

// ---------------------------------------------------------------------------
// Reading
// ---------------------------------------------------------------------------

/// The section that is open after the lines, if any.
pub open spec fn open_section(items: Seq<IniView>) -> Option<Seq<char>>
    decreases items.len(),
{
    if items.len() == 0 {
        None
    } else {
        match items.last() {
            IniView::Section(name) => Some(name),
            _ => open_section(items.drop_last()),
        }
    }
}

/// The values that stand in the sections of the given name, or outside of all
/// sections.
pub open spec fn values_in(
    items: Seq<IniView>,
    section: Option<Seq<char>>,
) -> Seq<(Seq<char>, Seq<char>)>
    decreases items.len(),
{
    if items.len() == 0 {
        Seq::empty()
    } else {
        let before = values_in(items.drop_last(), section);
        match items.last() {
            IniView::Value(key, value) => if open_section(items.drop_last()) == section {
                before.push((key, value))
            } else {
                before
            },
            _ => before,
        }
    }
}

/// How many sections of the given name there are.
pub open spec fn sections_named(items: Seq<IniView>, name: Seq<char>) -> nat
    decreases items.len(),
{
    if items.len() == 0 {
        0
    } else {
        sections_named(items.drop_last(), name) + if items.last() == IniView::Section(name) {
            1nat
        } else {
            0nat
        }
    }
}

/// The lines hold a valid association section of the given name: it occurs at
/// most once, no value outside of all sections takes its name, and its keys are
/// MIME types.
pub open spec fn is_section_valid(items: Seq<IniView>, name: Seq<char>) -> bool {
    &&& sections_named(items, name) <= 1
    &&& forall|i: int|
        0 <= i < values_in(items, None).len() ==> (#[trigger] values_in(items, None)[i]).0 != name
    &&& forall|i: int|
        0 <= i < values_in(items, Some(name)).len() ==> mime_parsed(
            (#[trigger] values_in(items, Some(name))[i]).0,
        ) is Some
}

/// The lines are those of a `mimeapps.list`.
pub open spec fn is_mime_apps(items: Seq<IniView>) -> bool {
    is_section_valid(items, ADDED@) && is_section_valid(items, DEFAULT@)
}

/// The associations that a section makes. The last one for a MIME type counts.
pub open spec fn associations(values: Seq<(Seq<char>, Seq<char>)>) -> Associations
    decreases values.len(),
{
    if values.len() == 0 {
        Associations::empty()
    } else {
        associations(values.drop_last()).insert(
            mime_parsed(values.last().0)->0,
            listed(values.last().1),
        )
    }
}

/// What a text says as a `mimeapps.list`, if it is one. Default associations
/// without handlers are passed over.
pub open spec fn apps_read(text: Seq<char>) -> Option<MimeAppsView> {
    match ini_parsed(text) {
        Some(items) => if is_mime_apps(items) {
            Some(
                MimeAppsView {
                    added_associations: associations(values_in(items, Some(ADDED@))),
                    default_apps: with_handlers(associations(values_in(items, Some(DEFAULT@)))),
                },
            )
        } else {
            None
        },
        None => None,
    }
}

proof fn lemma_section_valid_prefix(items: Seq<IniView>, name: Seq<char>, n: int)
    requires
        0 <= n <= items.len(),
        is_section_valid(items, name),
    ensures
        is_section_valid(items.take(n), name),
    decreases items.len(),
{
    if n < items.len() {
        let init = items.drop_last();
        let outside = values_in(init, None);
        assert forall|i: int| 0 <= i < outside.len() implies (#[trigger] outside[i]).0 != name by {
            assert(values_in(items, None)[i] == outside[i]);
        }
        let inside = values_in(init, Some(name));
        assert forall|i: int| 0 <= i < inside.len() implies mime_parsed(
            (#[trigger] inside[i]).0,
        ) is Some by {
            assert(values_in(items, Some(name))[i] == inside[i]);
        }
        lemma_section_valid_prefix(init, name, n);
        assert(init.take(n) =~= items.take(n));
    } else {
        assert(items.take(n) =~= items);
    }
}

/// Where the reader stands in the file.
enum Place {
    Outside,
    Added,
    Default,
    Other,
}

impl Place {
    spec fn is_at(&self, section: Option<Seq<char>>) -> bool {
        match self {
            Place::Outside => section is None,
            Place::Added => section == Some(ADDED@),
            Place::Default => section == Some(DEFAULT@),
            Place::Other => section matches Some(name) && name != ADDED@ && name != DEFAULT@,
        }
    }
}

proof fn lemma_names_differ()
    ensures
        ADDED@ != DEFAULT@,
{
    reveal_strlit("Added Associations");
    reveal_strlit("Default Applications");
    assert(ADDED@[0] != DEFAULT@[0]);
}

/// The association that a value makes.
fn read_association(key: &str, value: &str) -> (r: Result<(Mime, DesktopList), Error>)
    ensures
        match r {
            Ok((mime, handlers)) => mime_parsed(key@) == Some(mime@) && handlers@
                == listed(value@),
            Err(e) => mime_parsed(key@) is None && e@ == ErrorView::BadMimeApps,
        },
{
    match Mime::from_str(key) {
        Ok(mime) => match DesktopList::from_str(value) {
            Ok(handlers) => Ok((mime, handlers)),
            Err(_) => Err(Error::BadMimeApps),
        },
        Err(_) => Err(Error::BadMimeApps),
    }
}

impl MimeApps {
    /// Reads the associations from the lines of a `mimeapps.list`.
    pub fn from_items(items: &Vec<IniItem>) -> (r: Result<MimeApps, Error>)
        ensures
            match r {
                Ok(apps) => is_mime_apps(views(items@)) && apps.wf()
                    && apps@.added_associations == associations(
                    values_in(views(items@), Some(ADDED@)),
                ) && apps@.default_apps == with_handlers(
                    associations(values_in(views(items@), Some(DEFAULT@))),
                ),
                Err(e) => !is_mime_apps(views(items@)) && e@ == ErrorView::BadMimeApps,
            },
    {
        let ghost lines = views(items@);
        let mut added = MimeMap::new();
        let mut default = MimeMap::new();
        let mut seen_added = false;
        let mut seen_default = false;
        let mut place = Place::Outside;
        let mut i: usize = 0;
        proof {
            lemma_names_differ();
            assert(lines.take(0) =~= Seq::empty());
        }
        while i < items.len()
            invariant
                i <= items@.len(),
                lines == views(items@),
                ADDED@ != DEFAULT@,
                added.wf(),
                default.wf(),
                place.is_at(open_section(lines.take(i as int))),
                is_mime_apps(lines.take(i as int)),
                seen_added == (sections_named(lines.take(i as int), ADDED@) == 1),
                seen_default == (sections_named(lines.take(i as int), DEFAULT@) == 1),
                added@ == associations(values_in(lines.take(i as int), Some(ADDED@))),
                default@ == associations(values_in(lines.take(i as int), Some(DEFAULT@))),
            decreases items@.len() - i,
        {
            let ghost done = lines.take(i as int);
            let ghost next = lines.take(i + 1);
            proof {
                assert(next.drop_last() =~= done);
                assert(next.last() == items@[i as int]@);
                if is_mime_apps(lines) {
                    lemma_section_valid_prefix(lines, ADDED@, i + 1);
                    lemma_section_valid_prefix(lines, DEFAULT@, i + 1);
                }
            }
            match &items[i] {
                IniItem::Section { name } => {
                    if same_text(name.as_str(), ADDED) {
                        if seen_added {
                            return Err(Error::BadMimeApps);
                        }
                        seen_added = true;
                        place = Place::Added;
                    } else if same_text(name.as_str(), DEFAULT) {
                        if seen_default {
                            return Err(Error::BadMimeApps);
                        }
                        seen_default = true;
                        place = Place::Default;
                    } else {
                        place = Place::Other;
                    }
                },
                IniItem::Value { key, value } => {
                    proof {
                        lemma_value_step(done, key@, value@, next);
                        lemma_value_valid(done, key@, value@, next, ADDED@);
                        lemma_value_valid(done, key@, value@, next, DEFAULT@);
                    }
                    match place {
                        Place::Outside => {
                            if same_text(key.as_str(), ADDED) || same_text(key.as_str(), DEFAULT) {
                                return Err(Error::BadMimeApps);
                            }
                        },
                        Place::Added => {
                            match read_association(key.as_str(), value.as_str()) {
                                Ok((mime, handlers)) => added.insert(mime, handlers),
                                Err(e) => return Err(e),
                            }
                        },
                        Place::Default => {
                            match read_association(key.as_str(), value.as_str()) {
                                Ok((mime, handlers)) => default.insert(mime, handlers),
                                Err(e) => return Err(e),
                            }
                        },
                        Place::Other => {},
                    }
                },
                IniItem::Empty => {},
                IniItem::Comment { text: _ } => {},
            }
            i += 1;
        }
        assert(lines.take(i as int) =~= lines);
        default.retain_non_empty();
        Ok(MimeApps { added_associations: added, default_apps: default })
    }

    /// Reads a `mimeapps.list`.
    pub fn read_from(text: &str) -> (r: Result<MimeApps, Error>)
        ensures
            match r {
                Ok(apps) => apps.wf() && apps_read(text@) == Some(apps@),
                Err(e) => apps_read(text@) is None && e@ == ErrorView::BadMimeApps,
            },
    {
        match parse_ini(text) {
            Ok(items) => MimeApps::from_items(&items),
            Err(_) => Err(Error::BadMimeApps),
        }
    }
}

/// What one more value changes.
proof fn lemma_value_step(
    done: Seq<IniView>,
    key: Seq<char>,
    value: Seq<char>,
    next: Seq<IniView>,
)
    requires
        next.len() > 0,
        next.drop_last() == done,
        next.last() == IniView::Value(key, value),
    ensures
        open_section(next) == open_section(done),
        forall|name: Seq<char>| #[trigger] sections_named(next, name) == sections_named(done, name),
        forall|section: Option<Seq<char>>| #[trigger]
            values_in(next, section) == if open_section(done) == section {
                values_in(done, section).push((key, value))
            } else {
                values_in(done, section)
            },
        forall|section: Option<Seq<char>>|
            open_section(done) == section ==> #[trigger] associations(values_in(next, section))
                == associations(values_in(done, section)).insert(
                mime_parsed(key)->0,
                listed(value),
            ),
        forall|section: Option<Seq<char>>|
            open_section(done) == section ==> (#[trigger] values_in(next, section))[values_in(
                done,
                section,
            ).len() as int] == (key, value),
{
    assert forall|section: Option<Seq<char>>|
        open_section(done) == section implies #[trigger] associations(values_in(next, section))
        == associations(values_in(done, section)).insert(mime_parsed(key)->0, listed(value)) by {
        let values = values_in(next, section);
        assert(values.drop_last() =~= values_in(done, section));
        assert(values.last() == (key, value));
    }
}

/// When one more value leaves a section valid.
proof fn lemma_value_valid(
    done: Seq<IniView>,
    key: Seq<char>,
    value: Seq<char>,
    next: Seq<IniView>,
    name: Seq<char>,
)
    requires
        next.len() > 0,
        next.drop_last() == done,
        next.last() == IniView::Value(key, value),
        is_section_valid(done, name),
    ensures
        is_section_valid(next, name) <==> match open_section(done) {
            None => key != name,
            Some(section) => section == name ==> mime_parsed(key) is Some,
        },
{
    lemma_value_step(done, key, value, next);
    let outside = values_in(next, None);
    let inside = values_in(next, Some(name));
    match open_section(done) {
        None => {
            assert(outside.last().0 == key);
            if key != name {
                assert forall|i: int| 0 <= i < outside.len() implies (#[trigger] outside[i]).0
                    != name by {
                    if i < values_in(done, None).len() {
                        assert(outside[i] == values_in(done, None)[i]);
                    }
                }
                assert(inside == values_in(done, Some(name)));
            }
        },
        Some(section) => {
            assert(outside == values_in(done, None));
            if section == name {
                assert(inside.last().0 == key);
                if mime_parsed(key) is Some {
                    assert forall|i: int| 0 <= i < inside.len() implies mime_parsed(
                        (#[trigger] inside[i]).0,
                    ) is Some by {
                        if i < values_in(done, Some(name)).len() {
                            assert(inside[i] == values_in(done, Some(name))[i]);
                        }
                    }
                }
            } else {
                assert(inside == values_in(done, Some(name)));
            }
        },
    }
}

// ---------------------------------------------------------------------------
// Writing
// ---------------------------------------------------------------------------

/// The values that write down associations.
pub open spec fn value_items(pairs: Seq<(Seq<char>, Seq<Seq<char>>)>) -> Seq<IniView> {
    pairs.map_values(|p: (Seq<char>, Seq<Seq<char>>)| IniView::Value(p.0, list_text(p.1)))
}

/// The section that writes down associations. There is none if there are no
/// associations.
pub open spec fn section_items(
    name: Seq<char>,
    pairs: Seq<(Seq<char>, Seq<Seq<char>>)>,
) -> Seq<IniView> {
    if pairs.len() == 0 {
        Seq::empty()
    } else {
        seq![IniView::Section(name)] + value_items(pairs)
    }
}

/// The lines of a `mimeapps.list`.
pub open spec fn file_items(
    added: Seq<(Seq<char>, Seq<Seq<char>>)>,
    default: Seq<(Seq<char>, Seq<Seq<char>>)>,
) -> Seq<IniView> {
    section_items(ADDED@, added) + section_items(DEFAULT@, default)
}

/// The text of a `mimeapps.list`.
pub open spec fn saved_text(
    added: Seq<(Seq<char>, Seq<Seq<char>>)>,
    default: Seq<(Seq<char>, Seq<Seq<char>>)>,
) -> Seq<char> {
    ini_text(file_items(added, default))
}

/// Writes down the section of the given name.
fn push_section(items: &mut Vec<IniItem>, name: &str, map: &MimeMap)
    ensures
        views(final(items)@) == views(old(items)@) + section_items(name@, map.pairs()),
{
    let ghost pairs = map.pairs();
    let ghost before = views(items@);
    if map.len() == 0 {
        assert(before + section_items(name@, pairs) =~= before);
        return;
    }
    items.push(IniItem::Section { name: name.to_owned() });
    let mut i: usize = 0;
    assert(views(items@) =~= before + (seq![IniView::Section(name@)] + value_items(pairs.take(0))));
    while i < map.len()
        invariant
            i <= pairs.len(),
            pairs == map.pairs(),
            views(items@) == before + (seq![IniView::Section(name@)] + value_items(
                pairs.take(i as int),
            )),
        decreases pairs.len() - i,
    {
        let ghost held = views(items@);
        let key = map.key_at(i).to_text();
        let value = map.handlers_at(i).to_text();
        let ghost view = IniView::Value(key@, value@);
        items.push(IniItem::Value { key, value });
        proof {
            assert(views(items@) =~= held.push(view));
            assert(value_items(pairs.take(i + 1)) =~= value_items(pairs.take(i as int)).push(view));
        }
        i += 1;
        assert(views(items@) =~= before + (seq![IniView::Section(name@)] + value_items(
            pairs.take(i as int),
        )));
    }
    assert(pairs.take(i as int) =~= pairs);
}

impl MimeApps {
    /// The text of the `mimeapps.list`. Default associations without handlers
    /// are taken out first.
    pub fn save_to(&mut self) -> (r: String)
        requires
            old(self).wf(),
        ensures
            final(self).wf(),
            final(self).added_associations == old(self).added_associations,
            final(self)@.default_apps == with_handlers(old(self)@.default_apps),
            r@ == saved_text(
                final(self).added_associations.pairs(),
                final(self).default_apps.pairs(),
            ),
    {
        self.default_apps.retain_non_empty();
        let mut items: Vec<IniItem> = Vec::new();
        assert(views(items@) =~= Seq::empty());
        push_section(&mut items, ADDED, &self.added_associations);
        push_section(&mut items, DEFAULT, &self.default_apps);
        assert(views(items@) =~= file_items(
            self.added_associations.pairs(),
            self.default_apps.pairs(),
        ));
        write_ini(&items)
    }
}

// ---------------------------------------------------------------------------
// Reading what was written
// ---------------------------------------------------------------------------

/// An association that comes back from a file as it was written: the MIME type
/// fits on the left of an equals sign; no handler is empty, occurs twice, holds
/// a semicolon or a line feed; and the first does not start with white space.
pub open spec fn is_writable_pair(pair: (Seq<char>, Seq<Seq<char>>)) -> bool {
    &&& is_canonical(pair.0)
    &&& is_writable_key(pair.0)
    &&& is_listable(pair.1)
    &&& forall|i: int| 0 <= i < pair.1.len() ==> !(#[trigger] pair.1[i]).contains('\n')
    &&& pair.1.len() > 0 ==> !is_white_space(pair.1[0][0])
}

/// All associations come back from a file as they were written.
pub open spec fn are_writable(pairs: Seq<(Seq<char>, Seq<Seq<char>>)>) -> bool {
    forall|i: int| 0 <= i < pairs.len() ==> is_writable_pair(#[trigger] pairs[i])
}

proof fn lemma_append_section(front: Seq<IniView>, name: Seq<char>)
    ensures
        open_section(front.push(IniView::Section(name))) == Some(name),
        forall|n: Seq<char>| #[trigger]
            sections_named(front.push(IniView::Section(name)), n) == sections_named(front, n)
                + if n == name {
                1nat
            } else {
                0nat
            },
        forall|section: Option<Seq<char>>| #[trigger]
            values_in(front.push(IniView::Section(name)), section) == values_in(front, section),
{
    assert(front.push(IniView::Section(name)).drop_last() =~= front);
}

proof fn lemma_append_values(front: Seq<IniView>, pairs: Seq<(Seq<char>, Seq<Seq<char>>)>)
    ensures
        open_section(front + value_items(pairs)) == open_section(front),
        forall|n: Seq<char>| #[trigger]
            sections_named(front + value_items(pairs), n) == sections_named(front, n),
        forall|section: Option<Seq<char>>| #[trigger]
            values_in(front + value_items(pairs), section) == if open_section(front) == section {
                values_in(front, section) + written_values(pairs)
            } else {
                values_in(front, section)
            },
    decreases pairs.len(),
{
    let items = front + value_items(pairs);
    if pairs.len() == 0 {
        assert(items =~= front);
        assert forall|section: Option<Seq<char>>| open_section(front) == section implies
            #[trigger] values_in(items, section) == values_in(front, section) + written_values(
            pairs,
        ) by {
            assert(values_in(front, section) + written_values(pairs) =~= values_in(front, section));
        }
    } else {
        let init = pairs.drop_last();
        let last = pairs.last();
        lemma_append_values(front, init);
        assert(items.drop_last() =~= front + value_items(init));
        assert(items.last() == IniView::Value(last.0, list_text(last.1)));
        lemma_value_step(items.drop_last(), last.0, list_text(last.1), items);
        assert forall|section: Option<Seq<char>>| open_section(front) == section implies
            #[trigger] values_in(items, section) == values_in(front, section) + written_values(
            pairs,
        ) by {
            assert((values_in(front, section) + written_values(init)).push(
                (last.0, list_text(last.1)),
            ) =~= values_in(front, section) + written_values(pairs));
        }
    }
}

/// The keys and values of a section that writes down associations.
spec fn written_values(pairs: Seq<(Seq<char>, Seq<Seq<char>>)>) -> Seq<(Seq<char>, Seq<char>)> {
    pairs.map_values(|p: (Seq<char>, Seq<Seq<char>>)| (p.0, list_text(p.1)))
}

proof fn lemma_append_section_items(
    front: Seq<IniView>,
    name: Seq<char>,
    pairs: Seq<(Seq<char>, Seq<Seq<char>>)>,
)
    requires
        open_section(front) != Some(name),
    ensures
        forall|n: Seq<char>|
            n != name ==> #[trigger] sections_named(front + section_items(name, pairs), n)
                == sections_named(front, n),
        sections_named(front + section_items(name, pairs), name) <= sections_named(front, name) + 1,
        forall|section: Option<Seq<char>>|
            section != Some(name) ==> #[trigger] values_in(
                front + section_items(name, pairs),
                section,
            ) == values_in(front, section),
        values_in(front + section_items(name, pairs), Some(name)) == values_in(front, Some(name))
            + written_values(pairs),
        open_section(front + section_items(name, pairs)) == if pairs.len() == 0 {
            open_section(front)
        } else {
            Some(name)
        },
{
    let items = front + section_items(name, pairs);
    if pairs.len() == 0 {
        assert(items =~= front);
        assert(values_in(front, Some(name)) + written_values(pairs) =~= values_in(
            front,
            Some(name),
        ));
    } else {
        let opened = front.push(IniView::Section(name));
        assert(items =~= opened + value_items(pairs));
        lemma_append_section(front, name);
        lemma_append_values(opened, pairs);
    }
}

proof fn lemma_written_associations(pairs: Seq<(Seq<char>, Seq<Seq<char>>)>)
    requires
        is_ordered(pairs),
        are_writable(pairs),
    ensures
        associations(written_values(pairs)) == map_of(pairs),
    decreases pairs.len(),
{
    let values = written_values(pairs);
    if pairs.len() == 0 {
        assert(map_of(pairs) =~= Associations::empty());
    } else {
        let init = pairs.drop_last();
        let last = pairs.last();
        assert forall|i: int, j: int| 0 <= i < j < init.len() implies text_lt(
            #[trigger] init[i].0,
            #[trigger] init[j].0,
        ) by {
            assert(text_lt(pairs[i].0, pairs[j].0));
        }
        assert forall|i: int| 0 <= i < init.len() implies is_writable_pair(#[trigger] init[i]) by {
            assert(init[i] == pairs[i]);
        }
        lemma_written_associations(init);
        assert(values.drop_last() =~= written_values(init));
        assert(is_writable_pair(pairs[pairs.len() - 1]));
        list_text_reads_back(last.1);
        assert forall|j: int| 0 <= j < init.len() implies text_lt(#[trigger] init[j].0, last.0) by {
            assert(text_lt(pairs[j].0, pairs[pairs.len() - 1].0));
        }
        lemma_insert_pair(init, init.len() as int, last.0, last.1);
        assert(init.insert(init.len() as int, last) =~= pairs);
    }
}

proof fn lemma_joined_free(list: Seq<Seq<char>>, c: char)
    requires
        c != ';',
        forall|i: int| 0 <= i < list.len() ==> !(#[trigger] list[i]).contains(c),
    ensures
        !joined(list, ";"@).contains(c),
    decreases list.len(),
{
    reveal_strlit(";");
    if list.len() > 1 {
        let init = list.drop_last();
        lemma_joined_free(init, c);
        let front = joined(init, ";"@);
        let all = joined(list, ";"@);
        if all.contains(c) {
            let i = choose|i: int| 0 <= i < all.len() && all[i] == c;
            if i < front.len() {
                assert(front[i] == c);
            } else if i > front.len() {
                assert(list.last()[i - front.len() - 1] == c);
            }
            assert(!list[list.len() - 1].contains(c));
        }
    } else if list.len() == 1 {
        assert(!list[0].contains(c));
    }
}

proof fn lemma_list_text_writable(list: Seq<Seq<char>>)
    requires
        is_listable(list),
        forall|i: int| 0 <= i < list.len() ==> !(#[trigger] list[i]).contains('\n'),
        list.len() > 0 ==> !is_white_space(list[0][0]),
    ensures
        is_writable_value(list_text(list)),
{
    reveal_strlit(";");
    let text = list_text(list);
    lemma_joined_free(list, '\n');
    if text.contains('\n') {
        let i = choose|i: int| 0 <= i < text.len() && text[i] == '\n';
        assert(joined(list, ";"@)[i] == '\n');
    }
    assert(text.last() == ';');
    if list.len() > 0 {
        assert(list[0].len() > 0);
        if list.len() > 1 {
            lemma_joined_front(list, ";"@);
        }
        assert(text[0] == list[0][0]);
    } else {
        assert(text[0] == ';');
    }
}

proof fn lemma_value_items_writable(pairs: Seq<(Seq<char>, Seq<Seq<char>>)>)
    requires
        are_writable(pairs),
    ensures
        forall|i: int|
            0 <= i < pairs.len() ==> is_writable(#[trigger] value_items(pairs)[i]),
{
    assert forall|i: int| 0 <= i < pairs.len() implies is_writable(
        #[trigger] value_items(pairs)[i],
    ) by {
        assert(is_writable_pair(pairs[i]));
        lemma_list_text_writable(pairs[i].1);
    }
}

proof fn lemma_section_items_writable(
    name: Seq<char>,
    pairs: Seq<(Seq<char>, Seq<Seq<char>>)>,
)
    requires
        is_writable(IniView::Section(name)),
        are_writable(pairs),
    ensures
        forall|i: int|
            0 <= i < section_items(name, pairs).len() ==> is_writable(
                #[trigger] section_items(name, pairs)[i],
            ),
{
    let items = section_items(name, pairs);
    lemma_value_items_writable(pairs);
    assert forall|i: int| 0 <= i < items.len() implies is_writable(#[trigger] items[i]) by {
        if i > 0 {
            assert(items[i] == value_items(pairs)[i - 1]);
        }
    }
}

proof fn lemma_file_items_writable(
    added: Seq<(Seq<char>, Seq<Seq<char>>)>,
    default: Seq<(Seq<char>, Seq<Seq<char>>)>,
)
    requires
        are_writable(added),
        are_writable(default),
    ensures
        forall|i: int|
            0 <= i < file_items(added, default).len() ==> is_writable(
                #[trigger] file_items(added, default)[i],
            ),
{
    let front = section_items(ADDED@, added);
    let back = section_items(DEFAULT@, default);
    let items = file_items(added, default);
    reveal_strlit("Added Associations");
    reveal_strlit("Default Applications");
    lemma_section_items_writable(ADDED@, added);
    lemma_section_items_writable(DEFAULT@, default);
    assert forall|i: int| 0 <= i < items.len() implies is_writable(#[trigger] items[i]) by {
        if i < front.len() {
            assert(items[i] == front[i]);
        } else {
            assert(items[i] == back[i - front.len()]);
        }
    }
}

/// What the sections of a saved file hold.
proof fn lemma_file_values(
    added: Seq<(Seq<char>, Seq<Seq<char>>)>,
    default: Seq<(Seq<char>, Seq<Seq<char>>)>,
)
    ensures
        values_in(file_items(added, default), Some(ADDED@)) == written_values(added),
        values_in(file_items(added, default), Some(DEFAULT@)) == written_values(default),
        values_in(file_items(added, default), None) == Seq::<(Seq<char>, Seq<char>)>::empty(),
        sections_named(file_items(added, default), ADDED@) <= 1,
        sections_named(file_items(added, default), DEFAULT@) <= 1,
{
    lemma_names_differ();
    let front = section_items(ADDED@, added);
    let none = Seq::<IniView>::empty();
    assert(none + front =~= front);
    lemma_append_section_items(none, ADDED@, added);
    lemma_append_section_items(front, DEFAULT@, default);
    assert(values_in(none, Some(ADDED@)) + written_values(added) =~= written_values(added));
    assert(values_in(front, Some(DEFAULT@)) + written_values(default) =~= written_values(default));
}

proof fn lemma_written_keys_are_mimes(pairs: Seq<(Seq<char>, Seq<Seq<char>>)>)
    requires
        are_writable(pairs),
    ensures
        forall|i: int|
            0 <= i < written_values(pairs).len() ==> mime_parsed(
                (#[trigger] written_values(pairs)[i]).0,
            ) is Some,
{
    assert forall|i: int| 0 <= i < written_values(pairs).len() implies mime_parsed(
        (#[trigger] written_values(pairs)[i]).0,
    ) is Some by {
        assert(is_writable_pair(pairs[i]));
    }
}

/// Reading a `mimeapps.list` gives back what was saved, without the default
/// associations that have no handlers. This is so whenever the associations fit
/// into such a file.
pub proof fn saved_file_reads_back(
    added: Seq<(Seq<char>, Seq<Seq<char>>)>,
    default: Seq<(Seq<char>, Seq<Seq<char>>)>,
)
    requires
        is_ordered(added),
        is_ordered(default),
        are_writable(added),
        are_writable(default),
    ensures
        apps_read(saved_text(added, default)) == Some(
            MimeAppsView {
                added_associations: map_of(added),
                default_apps: with_handlers(map_of(default)),
            },
        ),
{
    let items = file_items(added, default);
    lemma_file_values(added, default);
    lemma_written_keys_are_mimes(added);
    lemma_written_keys_are_mimes(default);
    assert(is_mime_apps(items));
    lemma_written_associations(added);
    lemma_written_associations(default);
    lemma_file_items_writable(added, default);
    ini_text_reads_back(items);
}

/// Saving what was read back from a saved file writes the same file again.
pub proof fn saving_is_stable(
    added: Seq<(Seq<char>, Seq<Seq<char>>)>,
    default: Seq<(Seq<char>, Seq<Seq<char>>)>,
    added_again: Seq<(Seq<char>, Seq<Seq<char>>)>,
    default_again: Seq<(Seq<char>, Seq<Seq<char>>)>,
)
    requires
        is_ordered(added),
        is_ordered(default),
        are_writable(added),
        are_writable(default),
        map_of(default) == with_handlers(map_of(default)),
        is_ordered(added_again),
        is_ordered(default_again),
        apps_read(saved_text(added, default)) == Some(
            MimeAppsView {
                added_associations: map_of(added_again),
                default_apps: map_of(default_again),
            },
        ),
    ensures
        saved_text(added_again, default_again) == saved_text(added, default),
{
    saved_file_reads_back(added, default);
    order_is_determined(added, added_again);
    order_is_determined(default, default_again);
}

// ---------------------------------------------------------------------------
// What a file says
// ---------------------------------------------------------------------------

/// The section that is open after some lines is the last one among them.
proof fn lemma_open_section(items: Seq<IniView>) -> (s: int)
    ensures
        match open_section(items) {
            Some(name) => 0 <= s < items.len() && items[s] == IniView::Section(name)
                && forall|t: int| s < t < items.len() ==> !(#[trigger] items[t] is Section),
            None => forall|t: int| 0 <= t < items.len() ==> !(#[trigger] items[t] is Section),
        },
    decreases items.len(),
{
    if items.len() == 0 {
        0
    } else {
        let init = items.drop_last();
        let s = lemma_open_section(init);
        assert forall|t: int| 0 <= t < init.len() implies init[t] == #[trigger] items[t] by {}
        if items.last() is Section {
            items.len() - 1
        } else {
            s
        }
    }
}

proof fn lemma_section_stays_open(items: Seq<IniView>, s: int, name: Seq<char>)
    requires
        0 <= s < items.len(),
        items[s] == IniView::Section(name),
        forall|t: int| s < t < items.len() ==> !(#[trigger] items[t] is Section),
    ensures
        open_section(items) == Some(name),
{
    let k = lemma_open_section(items);
    if open_section(items) is None {
        assert(items[s] is Section);
    } else if k < s {
        assert(items[s] is Section);
    } else if k > s {
        assert(items[k] is Section);
    }
}

proof fn lemma_section_counts(items: Seq<IniView>, name: Seq<char>, i: int)
    requires
        0 <= i < items.len(),
        items[i] == IniView::Section(name),
    ensures
        sections_named(items, name) >= 1,
    decreases items.len(),
{
    if i < items.len() - 1 {
        lemma_section_counts(items.drop_last(), name, i);
    }
}

proof fn lemma_sections_differ(items: Seq<IniView>, name: Seq<char>, i: int, j: int)
    requires
        0 <= i < j < items.len(),
        items[i] == IniView::Section(name),
        items[j] == IniView::Section(name),
    ensures
        sections_named(items, name) >= 2,
    decreases items.len(),
{
    if j < items.len() - 1 {
        lemma_sections_differ(items.drop_last(), name, i, j);
    } else {
        lemma_section_counts(items.drop_last(), name, i);
    }
}

proof fn lemma_a_counted_section_stands_somewhere(items: Seq<IniView>, name: Seq<char>) -> (i: int)
    requires
        sections_named(items, name) >= 1,
    ensures
        0 <= i < items.len(),
        items[i] == IniView::Section(name),
    decreases items.len(),
{
    if items.last() == IniView::Section(name) {
        items.len() - 1
    } else {
        lemma_a_counted_section_stands_somewhere(items.drop_last(), name)
    }
}

proof fn lemma_value_is_held(
    items: Seq<IniView>,
    section: Option<Seq<char>>,
    i: int,
) -> (k: int)
    requires
        0 <= i < items.len(),
        items[i] is Value,
        open_section(items.take(i)) == section,
    ensures
        0 <= k < values_in(items, section).len(),
        items[i] == IniView::Value(values_in(items, section)[k].0, values_in(items, section)[k].1),
    decreases items.len(),
{
    let init = items.drop_last();
    if i < items.len() - 1 {
        assert(init.take(i) =~= items.take(i));
        let k = lemma_value_is_held(init, section, i);
        assert(values_in(items, section)[k] == values_in(init, section)[k]);
        k
    } else {
        assert(items.take(i) =~= init);
        values_in(items, section).len() - 1
    }
}

proof fn lemma_a_held_value_stands_somewhere(
    items: Seq<IniView>,
    section: Option<Seq<char>>,
    k: int,
) -> (i: int)
    requires
        0 <= k < values_in(items, section).len(),
    ensures
        0 <= i < items.len(),
        items[i] == IniView::Value(values_in(items, section)[k].0, values_in(items, section)[k].1),
        open_section(items.take(i)) == section,
    decreases items.len(),
{
    let init = items.drop_last();
    let before = values_in(init, section);
    if k < before.len() {
        assert(values_in(items, section)[k] == before[k]);
        let i = lemma_a_held_value_stands_somewhere(init, section, k);
        assert(items.take(i) =~= init.take(i));
        i
    } else {
        assert(items.take(items.len() - 1) =~= init);
        items.len() - 1
    }
}

/// A section that stands in a file twice cannot be read.
pub proof fn a_section_that_stands_twice_is_refused(
    items: Seq<IniView>,
    name: Seq<char>,
    i: int,
    j: int,
)
    requires
        0 <= i < j < items.len(),
        items[i] == IniView::Section(name),
        items[j] == IniView::Section(name),
    ensures
        !is_section_valid(items, name),
{
    lemma_sections_differ(items, name, i, j);
}

/// A section cannot be read where a value before all sections takes its name.
pub proof fn a_value_that_takes_the_name_of_a_section_is_refused(
    items: Seq<IniView>,
    name: Seq<char>,
    i: int,
)
    requires
        0 <= i < items.len(),
        items[i] is Value,
        items[i]->Value_0 == name,
        forall|t: int| 0 <= t < i ==> !(#[trigger] items[t] is Section),
    ensures
        !is_section_valid(items, name),
{
    let front = items.take(i);
    let s = lemma_open_section(front);
    if open_section(front) is Some {
        assert(items[s] is Section);
    }
    let k = lemma_value_is_held(items, None, i);
    assert(values_in(items, None)[k].0 == name);
}

/// A section cannot be read where one of its values, which go on to the next
/// section, has no MIME type for its key.
pub proof fn a_key_that_is_no_mime_type_is_refused(
    items: Seq<IniView>,
    name: Seq<char>,
    s: int,
    i: int,
)
    requires
        0 <= s < i < items.len(),
        items[s] == IniView::Section(name),
        forall|t: int| s < t < i ==> !(#[trigger] items[t] is Section),
        items[i] is Value,
        mime_parsed(items[i]->Value_0) is None,
    ensures
        !is_section_valid(items, name),
{
    let front = items.take(i);
    assert forall|t: int| s < t < front.len() implies !(#[trigger] front[t] is Section) by {
        assert(front[t] == items[t]);
    }
    lemma_section_stays_open(front, s, name);
    let k = lemma_value_is_held(items, Some(name), i);
    assert(mime_parsed(values_in(items, Some(name))[k].0) is None);
}

/// For no other reason can a section not be read: where it cannot, there are two
/// lines that give the section twice, or a value before all sections that takes
/// its name, or a value in it whose key is no MIME type.
pub proof fn a_section_is_refused_for_its_own_lines_only(
    items: Seq<IniView>,
    name: Seq<char>,
) -> (place: (int, int))
    requires
        !is_section_valid(items, name),
    ensures
        0 <= place.1 < items.len(),
        ({
            ||| 0 <= place.0 < place.1 && items[place.0] == IniView::Section(name)
                && items[place.1] == IniView::Section(name)
            ||| items[place.1] is Value && items[place.1]->Value_0 == name && forall|t: int|
                0 <= t < place.1 ==> !(#[trigger] items[t] is Section)
            ||| 0 <= place.0 < place.1 && items[place.0] == IniView::Section(name)
                && items[place.1] is Value && mime_parsed(items[place.1]->Value_0) is None
                && forall|t: int| place.0 < t < place.1 ==> !(#[trigger] items[t] is Section)
        }),
{
    let outside = values_in(items, None);
    let inside = values_in(items, Some(name));
    if sections_named(items, name) > 1 {
        lemma_a_section_counted_twice_stands_twice(items, name)
    } else if exists|k: int| 0 <= k < outside.len() && (#[trigger] outside[k]).0 == name {
        let k = choose|k: int| 0 <= k < outside.len() && (#[trigger] outside[k]).0 == name;
        let i = lemma_a_held_value_stands_somewhere(items, None, k);
        let front = items.take(i);
        let s = lemma_open_section(front);
        assert forall|t: int| 0 <= t < i implies !(#[trigger] items[t] is Section) by {
            assert(front[t] == items[t]);
        }
        (0, i)
    } else {
        let k = choose|k: int|
            0 <= k < inside.len() && mime_parsed((#[trigger] inside[k]).0) is None;
        let i = lemma_a_held_value_stands_somewhere(items, Some(name), k);
        let front = items.take(i);
        let s = lemma_open_section(front);
        assert(items[s] == front[s]);
        assert forall|t: int| s < t < i implies !(#[trigger] items[t] is Section) by {
            assert(front[t] == items[t]);
        }
        (s, i)
    }
}

proof fn lemma_a_section_counted_twice_stands_twice(
    items: Seq<IniView>,
    name: Seq<char>,
) -> (place: (int, int))
    requires
        sections_named(items, name) > 1,
    ensures
        0 <= place.0 < place.1 < items.len(),
        items[place.0] == IniView::Section(name),
        items[place.1] == IniView::Section(name),
    decreases items.len(),
{
    let init = items.drop_last();
    if items.last() == IniView::Section(name) {
        let i = lemma_a_counted_section_stands_somewhere(init, name);
        assert(items[i] == init[i]);
        (i, items.len() - 1)
    } else {
        let place = lemma_a_section_counted_twice_stands_twice(init, name);
        assert(items[place.0] == init[place.0] && items[place.1] == init[place.1]);
        place
    }
}

/// A text is a `mimeapps.list` exactly if all its lines can be read and both its
/// sections are valid.
pub proof fn a_text_is_read_if_both_sections_are_valid(text: Seq<char>)
    ensures
        apps_read(text) is Some <==> (ini_parsed(text) matches Some(items) && is_section_valid(
            items,
            "Added Associations"@,
        ) && is_section_valid(items, "Default Applications"@)),
{
}

/// What the values of a section that goes on to the end of the lines make.
proof fn lemma_last_value_counts(items: Seq<IniView>, name: Seq<char>, s: int, i: int)
    requires
        0 <= s < i < items.len(),
        items[s] == IniView::Section(name),
        forall|t: int| s < t < items.len() ==> !(#[trigger] items[t] is Section),
        forall|t: int|
            s < t < items.len() && #[trigger] items[t] is Value ==> mime_parsed(
                items[t]->Value_0,
            ) is Some,
        items[i] is Value,
        forall|j: int|
            i < j < items.len() && #[trigger] items[j] is Value ==> mime_parsed(items[j]->Value_0)
                != mime_parsed(items[i]->Value_0),
    ensures
        associations(values_in(items, Some(name))).contains_key(mime_parsed(items[i]->Value_0)->0),
        associations(values_in(items, Some(name)))[mime_parsed(items[i]->Value_0)->0] == listed(
            items[i]->Value_1,
        ),
    decreases items.len(),
{
    let init = items.drop_last();
    let last = items.len() - 1;
    let all = values_in(items, Some(name));
    let before = values_in(init, Some(name));
    assert forall|t: int| 0 <= t < init.len() implies init[t] == #[trigger] items[t] by {}
    lemma_section_stays_open(init, s, name);
    if items[last] is Value {
        assert(all.drop_last() =~= before);
        assert(all.last() == (items[last]->Value_0, items[last]->Value_1));
    }
    if i < last {
        assert forall|t: int| s < t < init.len() implies !(#[trigger] init[t] is Section) by {
            assert(init[t] == items[t]);
        }
        assert forall|t: int| s < t < init.len() && #[trigger] init[t] is Value implies mime_parsed(
            init[t]->Value_0,
        ) is Some by {
            assert(init[t] == items[t]);
        }
        assert forall|j: int|
            i < j < init.len() && #[trigger] init[j] is Value implies mime_parsed(init[j]->Value_0)
            != mime_parsed(init[i]->Value_0) by {
            assert(init[j] == items[j] && init[i] == items[i]);
        }
        lemma_last_value_counts(init, name, s, i);
        assert(init[i] == items[i]);
        if items[last] is Value {
            assert(mime_parsed(items[last]->Value_0) is Some);
            assert(mime_parsed(items[i]->Value_0) is Some);
            assert(mime_parsed(items[last]->Value_0) != mime_parsed(items[i]->Value_0));
        } else {
            assert(all == before);
        }
    }
}

/// The values of a section that stands in a file once are those up to the next
/// section.
proof fn lemma_values_end_at_the_next_section(
    items: Seq<IniView>,
    name: Seq<char>,
    s: int,
    end: int,
)
    requires
        sections_named(items, name) <= 1,
        0 <= s < end <= items.len(),
        items[s] == IniView::Section(name),
        end < items.len() ==> items[end] is Section,
    ensures
        values_in(items, Some(name)) == values_in(items.take(end), Some(name)),
    decreases items.len(),
{
    if end == items.len() {
        assert(items.take(end) =~= items);
    } else {
        let init = items.drop_last();
        let last = items.len() - 1;
        assert(init[s] == items[s]);
        if end < last {
            assert(init[end] == items[end]);
        }
        lemma_values_end_at_the_next_section(init, name, s, end);
        assert(init.take(end) =~= items.take(end));
        if items[last] is Value && open_section(init) == Some(name) {
            let k = lemma_open_section(init);
            assert(items[k] == init[k]);
            if k < s {
                lemma_sections_differ(items, name, k, s);
            } else if s < k {
                lemma_sections_differ(items, name, s, k);
            } else {
                assert(init[end] is Section);
            }
        }
    }
}

proof fn lemma_value_of_a_section(
    items: Seq<IniView>,
    name: Seq<char>,
    s: int,
    i: int,
    end: int,
)
    requires
        is_section_valid(items, name),
        0 <= s < i < end <= items.len(),
        items[s] == IniView::Section(name),
        forall|t: int| s < t < end ==> !(#[trigger] items[t] is Section),
        end < items.len() ==> items[end] is Section,
        items[i] is Value,
        forall|j: int|
            i < j < end && #[trigger] items[j] is Value ==> mime_parsed(items[j]->Value_0)
                != mime_parsed(items[i]->Value_0),
    ensures
        mime_parsed(items[i]->Value_0) is Some,
        associations(values_in(items, Some(name))).contains_key(mime_parsed(items[i]->Value_0)->0),
        associations(values_in(items, Some(name)))[mime_parsed(items[i]->Value_0)->0] == listed(
            items[i]->Value_1,
        ),
{
    let part = items.take(end);
    lemma_values_end_at_the_next_section(items, name, s, end);
    assert forall|t: int| 0 <= t < end implies part[t] == #[trigger] items[t] by {}
    assert forall|t: int| s < t < end && #[trigger] items[t] is Value implies mime_parsed(
        items[t]->Value_0,
    ) is Some by {
        if mime_parsed(items[t]->Value_0) is None {
            a_key_that_is_no_mime_type_is_refused(items, name, s, t);
        }
    }
    assert forall|t: int| s < t < part.len() implies !(#[trigger] part[t] is Section) by {
        assert(part[t] == items[t]);
    }
    assert forall|t: int| s < t < part.len() && #[trigger] part[t] is Value implies mime_parsed(
        part[t]->Value_0,
    ) is Some by {
        assert(part[t] == items[t]);
    }
    assert forall|j: int| i < j < part.len() && #[trigger] part[j] is Value implies mime_parsed(
        part[j]->Value_0,
    ) != mime_parsed(part[i]->Value_0) by {
        assert(part[j] == items[j] && part[i] == items[i]);
    }
    assert(part[s] == items[s] && part[i] == items[i]);
    lemma_last_value_counts(part, name, s, i);
}

proof fn lemma_an_association_has_a_value(
    values: Seq<(Seq<char>, Seq<char>)>,
    mime: Seq<char>,
) -> (k: int)
    requires
        associations(values).contains_key(mime),
    ensures
        0 <= k < values.len(),
        mime_parsed(values[k].0)->0 == mime,
    decreases values.len(),
{
    let init = values.drop_last();
    if mime_parsed(values.last().0)->0 == mime {
        values.len() - 1
    } else {
        lemma_an_association_has_a_value(init, mime)
    }
}

/// A value in the section of the default applications gives the handlers of its
/// MIME type, unless a later value in the section is for the same MIME type. A
/// value that lists no handlers gives no association.
pub proof fn the_last_default_value_counts(text: Seq<char>, s: int, i: int, end: int)
    requires
        apps_read(text) is Some,
        0 <= s < i < end <= ini_parsed(text)->0.len(),
        ini_parsed(text)->0[s] == IniView::Section("Default Applications"@),
        forall|t: int| s < t < end ==> !(#[trigger] ini_parsed(text)->0[t] is Section),
        end < ini_parsed(text)->0.len() ==> ini_parsed(text)->0[end] is Section,
        ini_parsed(text)->0[i] is Value,
        forall|j: int|
            i < j < end && #[trigger] ini_parsed(text)->0[j] is Value ==> mime_parsed(
                ini_parsed(text)->0[j]->Value_0,
            ) != mime_parsed(ini_parsed(text)->0[i]->Value_0),
    ensures
        ({
            let mime = mime_parsed(ini_parsed(text)->0[i]->Value_0)->0;
            let handlers = listed(ini_parsed(text)->0[i]->Value_1);
            let read = apps_read(text)->0.default_apps;
            &&& read.contains_key(mime) <==> handlers.len() > 0
            &&& handlers.len() > 0 ==> read[mime] == handlers
        }),
{
    lemma_value_of_a_section(ini_parsed(text)->0, DEFAULT@, s, i, end);
}

/// A value in the section of the added associations gives the handlers of its MIME
/// type, unless a later value in the section is for the same MIME type.
pub proof fn the_last_added_value_counts(text: Seq<char>, s: int, i: int, end: int)
    requires
        apps_read(text) is Some,
        0 <= s < i < end <= ini_parsed(text)->0.len(),
        ini_parsed(text)->0[s] == IniView::Section("Added Associations"@),
        forall|t: int| s < t < end ==> !(#[trigger] ini_parsed(text)->0[t] is Section),
        end < ini_parsed(text)->0.len() ==> ini_parsed(text)->0[end] is Section,
        ini_parsed(text)->0[i] is Value,
        forall|j: int|
            i < j < end && #[trigger] ini_parsed(text)->0[j] is Value ==> mime_parsed(
                ini_parsed(text)->0[j]->Value_0,
            ) != mime_parsed(ini_parsed(text)->0[i]->Value_0),
    ensures
        ({
            let mime = mime_parsed(ini_parsed(text)->0[i]->Value_0)->0;
            let read = apps_read(text)->0.added_associations;
            read.contains_key(mime) && read[mime] == listed(ini_parsed(text)->0[i]->Value_1)
        }),
{
    lemma_value_of_a_section(ini_parsed(text)->0, ADDED@, s, i, end);
}

proof fn lemma_an_association_stands_in_its_section(
    items: Seq<IniView>,
    name: Seq<char>,
    mime: Seq<char>,
) -> (place: (int, int))
    requires
        is_section_valid(items, name),
        associations(values_in(items, Some(name))).contains_key(mime),
    ensures
        0 <= place.0 < place.1 < items.len(),
        items[place.0] == IniView::Section(name),
        forall|t: int| place.0 < t < place.1 ==> !(#[trigger] items[t] is Section),
        items[place.1] is Value,
        mime_parsed(items[place.1]->Value_0) == Some(mime),
{
    let values = values_in(items, Some(name));
    let k = lemma_an_association_has_a_value(values, mime);
    assert(mime_parsed(values[k].0) is Some);
    let i = lemma_a_held_value_stands_somewhere(items, Some(name), k);
    let front = items.take(i);
    let s = lemma_open_section(front);
    assert forall|t: int| s < t < i implies !(#[trigger] items[t] is Section) by {
        assert(front[t] == items[t]);
    }
    (s, i)
}

/// There are no default associations but those that a value in their section
/// makes.
pub proof fn every_default_association_stands_in_its_section(
    text: Seq<char>,
    mime: Seq<char>,
) -> (place: (int, int))
    requires
        apps_read(text) is Some,
        apps_read(text)->0.default_apps.contains_key(mime),
    ensures
        0 <= place.0 < place.1 < ini_parsed(text)->0.len(),
        ini_parsed(text)->0[place.0] == IniView::Section("Default Applications"@),
        forall|t: int| place.0 < t < place.1 ==> !(#[trigger] ini_parsed(text)->0[t] is Section),
        ini_parsed(text)->0[place.1] is Value,
        mime_parsed(ini_parsed(text)->0[place.1]->Value_0) == Some(mime),
{
    lemma_an_association_stands_in_its_section(ini_parsed(text)->0, DEFAULT@, mime)
}

/// There are no added associations but those that a value in their section makes.
pub proof fn every_added_association_stands_in_its_section(
    text: Seq<char>,
    mime: Seq<char>,
) -> (place: (int, int))
    requires
        apps_read(text) is Some,
        apps_read(text)->0.added_associations.contains_key(mime),
    ensures
        0 <= place.0 < place.1 < ini_parsed(text)->0.len(),
        ini_parsed(text)->0[place.0] == IniView::Section("Added Associations"@),
        forall|t: int| place.0 < t < place.1 ==> !(#[trigger] ini_parsed(text)->0[t] is Section),
        ini_parsed(text)->0[place.1] is Value,
        mime_parsed(ini_parsed(text)->0[place.1]->Value_0) == Some(mime),
{
    lemma_an_association_stands_in_its_section(ini_parsed(text)->0, ADDED@, mime)
}

// ---------------------------------------------------------------------------
// What is saved
// ---------------------------------------------------------------------------

proof fn lemma_ini_text_append(a: Seq<IniView>, b: Seq<IniView>)
    ensures
        ini_text(a + b) == ini_text(a) + ini_text(b),
    decreases b.len(),
{
    if b.len() == 0 {
        assert(a + b =~= a);
        assert(ini_text(a) + ini_text(b) =~= ini_text(a));
    } else {
        let init = b.drop_last();
        lemma_ini_text_append(a, init);
        assert((a + b).drop_last() =~= a + init);
        assert((a + b).last() == b.last());
        assert(ini_text(a + b) =~= ini_text(a) + ini_text(b));
    }
}

/// The added associations are saved before the default ones, and either are saved
/// as if there were no others.
pub proof fn sections_are_saved_one_after_the_other(
    added: Seq<(Seq<char>, Seq<Seq<char>>)>,
    default: Seq<(Seq<char>, Seq<Seq<char>>)>,
)
    ensures
        saved_text(added, default) == saved_text(added, Seq::empty()) + saved_text(
            Seq::empty(),
            default,
        ),
        saved_text(Seq::empty(), Seq::empty()) == Seq::<char>::empty(),
{
    let none = Seq::<(Seq<char>, Seq<Seq<char>>)>::empty();
    let front = section_items(ADDED@, added);
    let back = section_items(DEFAULT@, default);
    assert(file_items(added, none) =~= front);
    assert(file_items(none, default) =~= back);
    assert(file_items(none, none) =~= Seq::empty());
    lemma_ini_text_append(front, back);
}

proof fn lemma_section_text(
    name: Seq<char>,
    pairs: Seq<(Seq<char>, Seq<Seq<char>>)>,
    pair: (Seq<char>, Seq<Seq<char>>),
)
    ensures
        ini_text(section_items(name, seq![pair])) == seq!['['] + name + seq![']', '\n'] + (pair.0
            + seq!['='] + list_text(pair.1) + seq!['\n']),
        pairs.len() > 0 ==> ini_text(section_items(name, pairs.push(pair))) == ini_text(
            section_items(name, pairs),
        ) + (pair.0 + seq!['='] + list_text(pair.1) + seq!['\n']),
{
    let line = pair.0 + seq!['='] + list_text(pair.1) + seq!['\n'];
    let item = IniView::Value(pair.0, list_text(pair.1));
    let head = seq![IniView::Section(name)];
    reveal_with_fuel(ini_text, 3);
    let one = section_items(name, seq![pair]);
    assert(value_items(seq![pair]) =~= seq![item]);
    assert(one.drop_last() =~= head);
    assert(head.drop_last() =~= Seq::empty());
    assert(ini_text(head) =~= seq!['['] + name + seq![']', '\n']);
    assert(line_text(item).push('\n') =~= line);
    if pairs.len() > 0 {
        let longer = section_items(name, pairs.push(pair));
        assert(longer.drop_last() =~= section_items(name, pairs));
        assert(longer.last() == item);
    }
}

/// A section is saved as its title in brackets, and one line for each association:
/// the MIME type, an equals sign, and the list of handlers.
pub proof fn associations_are_saved_line_by_line(
    pairs: Seq<(Seq<char>, Seq<Seq<char>>)>,
    pair: (Seq<char>, Seq<Seq<char>>),
)
    ensures
        saved_text(Seq::empty(), seq![pair]) == seq!['['] + "Default Applications"@ + seq![
            ']',
            '\n',
        ] + (pair.0 + seq!['='] + list_text(pair.1) + seq!['\n']),
        saved_text(seq![pair], Seq::empty()) == seq!['['] + "Added Associations"@ + seq![']', '\n']
            + (pair.0 + seq!['='] + list_text(pair.1) + seq!['\n']),
        pairs.len() > 0 ==> saved_text(Seq::empty(), pairs.push(pair)) == saved_text(
            Seq::empty(),
            pairs,
        ) + (pair.0 + seq!['='] + list_text(pair.1) + seq!['\n']),
        pairs.len() > 0 ==> saved_text(pairs.push(pair), Seq::empty()) == saved_text(
            pairs,
            Seq::empty(),
        ) + (pair.0 + seq!['='] + list_text(pair.1) + seq!['\n']),
{
    let none = Seq::<(Seq<char>, Seq<Seq<char>>)>::empty();
    lemma_section_text(DEFAULT@, pairs, pair);
    lemma_section_text(ADDED@, pairs, pair);
    assert(file_items(none, seq![pair]) =~= section_items(DEFAULT@, seq![pair]));
    assert(file_items(seq![pair], none) =~= section_items(ADDED@, seq![pair]));
    assert(file_items(none, pairs.push(pair)) =~= section_items(DEFAULT@, pairs.push(pair)));
    assert(file_items(none, pairs) =~= section_items(DEFAULT@, pairs));
    assert(file_items(pairs.push(pair), none) =~= section_items(ADDED@, pairs.push(pair)));
    assert(file_items(pairs, none) =~= section_items(ADDED@, pairs));
}

} // verus!

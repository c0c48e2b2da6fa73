//! The lines of an INI file.
use crate::text::{
    lemma_position_from, lemma_position_of_char, lemma_trimmed_free, position_from, stands_at,
    trimmed, trimmed_has_no_white_space_around,
};
use serde_ini::parse::Error as ParseError;
use serde_ini::{Item, LineEnding, Parser, Writer};
use vstd::prelude::*;

verus! {

/// A line of an INI file.
#[derive(Debug, PartialEq, Eq)]
pub enum IniItem {
    Empty,
    Section { name: String },
    Value { key: String, value: String },
    Comment { text: String },
}

/// The contents of an [`IniItem`].
pub enum IniView {
    Empty,
    Section(Seq<char>),
    Value(Seq<char>, Seq<char>),
    Comment(Seq<char>),
}

impl View for IniItem {
    type V = IniView;

    open spec fn view(&self) -> IniView {
        match self {
            IniItem::Empty => IniView::Empty,
            IniItem::Section { name } => IniView::Section(name@),
            IniItem::Value { key, value } => IniView::Value(key@, value@),
            IniItem::Comment { text } => IniView::Comment(text@),
        }
    }
}

/// The contents of the lines.
pub open spec fn views(items: Seq<IniItem>) -> Seq<IniView> {
    items.map_values(|item: IniItem| item@)
}

// ---------------------------------------------------------------------------
// Reading
// ---------------------------------------------------------------------------

/// A line without the carriage return before its line feed.
pub open spec fn without_cr(line: Seq<char>) -> Seq<char> {
    if line.len() > 0 && line.last() == '\r' {
        line.drop_last()
    } else {
        line
    }
}

/// The lines of a text. A line ends with a line feed, or with a carriage return
/// and a line feed; the last one may end with the text.
pub open spec fn lines_of(text: Seq<char>) -> Seq<Seq<char>>
    decreases text.len(),
{
    if text.len() == 0 {
        Seq::empty()
    } else {
        match position_from(text, seq!['\n'], 0) {
            Some(i) => if 0 <= i < text.len() {
                seq![without_cr(text.take(i))] + lines_of(text.skip(i + 1))
            } else {
                seq![text]
            },
            None => seq![text],
        }
    }
}

/// What a line says: `[name]` opens a section, a line that starts with `;` or
/// `#` is a comment, `key=value` is a value. No other line but the empty one is
/// allowed.
pub open spec fn ini_line(line: Seq<char>) -> Option<IniView> {
    if line.len() == 0 {
        Some(IniView::Empty)
    } else if line[0] == '[' {
        let name = line.subrange(1, line.len() - 1);
        if line.last() == ']' && !name.contains(']') {
            Some(IniView::Section(name))
        } else {
            None
        }
    } else if line[0] == ';' || line[0] == '#' {
        Some(IniView::Comment(line))
    } else {
        match position_from(line, seq!['='], 0) {
            Some(i) => Some(IniView::Value(trimmed(line.take(i)), trimmed(line.skip(i + 1)))),
            None => None,
        }
    }
}

/// What the lines of a text say, if all of them are allowed.
pub open spec fn ini_parsed(text: Seq<char>) -> Option<Seq<IniView>> {
    let lines = lines_of(text);
    if forall|i: int| 0 <= i < lines.len() ==> ini_line(#[trigger] lines[i]) is Some {
        Some(lines.map_values(|line: Seq<char>| ini_line(line)->0))
    } else {
        None
    }
}

/// A line that is not allowed in an INI file.
#[verifier::external_type_specification]
#[verifier::external_body]
pub struct ExSyntaxError(serde_ini::parse::SyntaxError);

/// [`serde_ini::Parser::from_str`], walked to its end: what each line says, or
/// the error of the first line that is not allowed. Which error it is, is not
/// stated.
#[verifier::external_body]
pub(crate) fn parse_ini(text: &str) -> (r: Result<Vec<IniItem>, serde_ini::parse::SyntaxError>)
    ensures
        match r {
            Ok(items) => ini_parsed(text@) == Some(views(items@)),
            Err(_) => ini_parsed(text@) is None,
        },
{
    Parser::from_str(text)
        .map(|item| match item {
            Ok(Item::Empty) => Ok(IniItem::Empty),
            Ok(Item::Section { name }) => Ok(IniItem::Section { name }),
            Ok(Item::Value { key, value }) => Ok(IniItem::Value { key, value }),
            Ok(Item::Comment { text }) => Ok(IniItem::Comment { text }),
            Err(ParseError::Syntax(error)) => Err(error),
            Err(ParseError::Inner(never)) => match never {},
        })
        .collect()
}

// ---------------------------------------------------------------------------
// Writing
// ---------------------------------------------------------------------------

/// A line as it is written.
pub open spec fn line_text(item: IniView) -> Seq<char> {
    match item {
        IniView::Empty => Seq::empty(),
        IniView::Section(name) => seq!['['] + name + seq![']'],
        IniView::Value(key, value) => key + seq!['='] + value,
        IniView::Comment(text) => seq![';'] + text,
    }
}

/// The lines as they are written, each with a line feed at its end.
pub open spec fn ini_text(items: Seq<IniView>) -> Seq<char>
    decreases items.len(),
{
    if items.len() == 0 {
        Seq::empty()
    } else {
        ini_text(items.drop_last()) + line_text(items.last()).push('\n')
    }
}

/// [`serde_ini::Writer::write`] with [`LineEnding::Linefeed`]: the line and a
/// line feed.
#[verifier::external_body]
fn write_item(item: &IniItem) -> (r: String)
    ensures
        r@ == line_text(item@).push('\n'),
{
    let item = match item {
        IniItem::Empty => Item::Empty,
        IniItem::Section { name } => Item::Section { name: name.clone() },
        IniItem::Value { key, value } => Item::Value { key: key.clone(), value: value.clone() },
        IniItem::Comment { text } => Item::Comment { text: text.clone() },
    };
    let mut writer = Writer::new(Vec::new(), LineEnding::Linefeed);
    writer.write(&item).unwrap();
    String::from_utf8(writer.into_inner()).unwrap()
}

/// The lines as they are written.
pub(crate) fn write_ini(items: &Vec<IniItem>) -> (r: String)
    ensures
        r@ == ini_text(views(items@)),
{
    let mut text = String::new();
    let mut i: usize = 0;
    while i < items.len()
        invariant
            i <= items@.len(),
            text@ == ini_text(views(items@).take(i as int)),
        decreases items@.len() - i,
    {
        let line = write_item(&items[i]);
        text.append(line.as_str());
        proof {
            let next = views(items@).take(i + 1);
            assert(next.drop_last() =~= views(items@).take(i as int));
        }
        i += 1;
    }
    assert(views(items@).take(i as int) =~= views(items@));
    text
}

// ---------------------------------------------------------------------------
// Reading what was written
// ---------------------------------------------------------------------------

/// A section or value that comes back from a file as it was written.
pub open spec fn is_writable(item: IniView) -> bool {
    match item {
        IniView::Section(name) => !name.contains(']') && !name.contains('\n'),
        IniView::Value(key, value) => is_writable_key(key) && is_writable_value(value),
        _ => false,
    }
}

/// A key that comes back from a file as it was written.
pub open spec fn is_writable_key(key: Seq<char>) -> bool {
    &&& !key.contains('=')
    &&& !key.contains('\n')
    &&& trimmed(key) == key
    &&& key.len() > 0 ==> key[0] != '[' && key[0] != ';' && key[0] != '#'
}

/// A value that comes back from a file as it was written.
pub open spec fn is_writable_value(value: Seq<char>) -> bool {
    !value.contains('\n') && trimmed(value) == value
}

/// The value of a line does not go beyond it.
proof fn lemma_line_value_free(line: Seq<char>, c: char)
    requires
        !line.contains(c),
    ensures
        ini_line(line) matches Some(IniView::Value(_, value)) ==> !value.contains(c),
{
    if let Some(i) = position_from(line, seq!['='], 0) {
        lemma_position_from(line, seq!['='], 0);
        let rest = line.skip(i + 1);
        assert(!rest.contains(c)) by {
            if rest.contains(c) {
                let j = choose|j: int| 0 <= j < rest.len() && rest[j] == c;
                assert(line[i + 1 + j] == c);
            }
        }
        lemma_trimmed_free(rest, c);
    }
}

proof fn lemma_lines_free(text: Seq<char>)
    ensures
        forall|i: int| 0 <= i < lines_of(text).len() ==> !(#[trigger] lines_of(text)[i]).contains('\n'),
    decreases text.len(),
{
    let feed = seq!['\n'];
    let lines = lines_of(text);
    lemma_position_from(text, feed, 0);
    if text.len() > 0 {
        match position_from(text, feed, 0) {
            Some(k) => {
                let head = without_cr(text.take(k));
                let rest = lines_of(text.skip(k + 1));
                lemma_lines_free(text.skip(k + 1));
                assert forall|i: int| 0 <= i < lines.len() implies !(#[trigger] lines[i]).contains(
                    '\n',
                ) by {
                    if i > 0 {
                        assert(lines[i] == rest[i - 1]);
                    } else if head.contains('\n') {
                        let j = choose|j: int| 0 <= j < head.len() && head[j] == '\n';
                        assert(text.subrange(j, j + 1) =~= feed);
                        assert(stands_at(text, feed, j));
                    }
                }
            },
            None => {
                if text.contains('\n') {
                    let j = choose|j: int| 0 <= j < text.len() && text[j] == '\n';
                    assert(text.subrange(j, j + 1) =~= feed);
                    assert(stands_at(text, feed, j));
                }
            },
        }
    }
}

/// No value that was read holds a line feed.
pub(crate) proof fn lemma_parsed_values_free(text: Seq<char>)
    requires
        ini_parsed(text) is Some,
    ensures
        forall|i: int|
            0 <= i < ini_parsed(text)->0.len() ==> ((#[trigger] ini_parsed(text)->0[i]) matches
                IniView::Value(_, value) ==> !value.contains('\n')),
{
    let lines = lines_of(text);
    let items = ini_parsed(text)->0;
    lemma_lines_free(text);
    assert forall|i: int| 0 <= i < items.len() implies ((#[trigger] items[i]) matches
        IniView::Value(_, value) ==> !value.contains('\n')) by {
        assert(ini_line(lines[i]) == Some(items[i]));
        lemma_line_value_free(lines[i], '\n');
    }
}

proof fn lemma_line_reads_back(item: IniView)
    requires
        is_writable(item),
    ensures
        !line_text(item).contains('\n'),
        line_text(item).len() > 0,
        line_text(item).last() != '\r',
        ini_line(line_text(item)) == Some(item),
{
    let line = line_text(item);
    match item {
        IniView::Section(name) => {
            assert(line.subrange(1, line.len() - 1) =~= name);
            if line.contains('\n') {
                let i = choose|i: int| 0 <= i < line.len() && line[i] == '\n';
                assert(name[i - 1] == '\n');
            }
        },
        IniView::Value(key, value) => {
            assert(line.len() == key.len() + 1 + value.len());
            if line.contains('\n') {
                let i = choose|i: int| 0 <= i < line.len() && line[i] == '\n';
                if i < key.len() {
                    assert(key[i] == '\n');
                } else {
                    assert(value[i - key.len() - 1] == '\n');
                }
            }
            if value.len() > 0 {
                trimmed_has_no_white_space_around(value);
                assert(line.last() == value.last());
            } else {
                assert(line.last() == '=');
            }
            if key.len() > 0 {
                assert(line[0] == key[0]);
            } else {
                assert(line[0] == '=');
            }
            lemma_position_of_char(key, '=', value);
            assert(line.take(key.len() as int) =~= key);
            assert(line.skip(key.len() as int + 1) =~= value);
        },
        _ => {},
    }
}

proof fn lemma_lines_front(line: Seq<char>, rest: Seq<char>)
    requires
        !line.contains('\n'),
        line.len() > 0,
        line.last() != '\r',
    ensures
        lines_of(line.push('\n') + rest) == seq![line] + lines_of(rest),
{
    let text = line.push('\n') + rest;
    assert(text =~= line + seq!['\n'] + rest);
    lemma_position_of_char(line, '\n', rest);
    assert(text.take(line.len() as int) =~= line);
    assert(text.skip(line.len() as int + 1) =~= rest);
}

proof fn lemma_ini_text_front(items: Seq<IniView>)
    requires
        items.len() > 0,
    ensures
        ini_text(items) == line_text(items[0]).push('\n') + ini_text(items.drop_first()),
    decreases items.len(),
{
    let init = items.drop_last();
    let tail = items.drop_first();
    if items.len() == 1 {
        assert(ini_text(init) =~= Seq::empty());
        assert(ini_text(tail) =~= Seq::empty());
    } else {
        lemma_ini_text_front(init);
        assert(init.drop_first() =~= tail.drop_last());
        assert(ini_text(tail) == ini_text(tail.drop_last()) + line_text(items.last()).push('\n'));
    }
    assert(ini_text(items) =~= line_text(items[0]).push('\n') + ini_text(tail));
}

proof fn lemma_lines_of_ini_text(items: Seq<IniView>)
    requires
        forall|i: int| 0 <= i < items.len() ==> is_writable(#[trigger] items[i]),
    ensures
        lines_of(ini_text(items)) == items.map_values(|item: IniView| line_text(item)),
    decreases items.len(),
{
    let lines = items.map_values(|item: IniView| line_text(item));
    if items.len() == 0 {
        assert(lines =~= Seq::empty());
    } else {
        let tail = items.drop_first();
        assert forall|i: int| 0 <= i < tail.len() implies is_writable(#[trigger] tail[i]) by {
            assert(tail[i] == items[i + 1]);
        }
        lemma_ini_text_front(items);
        lemma_line_reads_back(items[0]);
        lemma_lines_front(line_text(items[0]), ini_text(tail));
        lemma_lines_of_ini_text(tail);
        assert(seq![line_text(items[0])] + tail.map_values(|item: IniView| line_text(item))
            =~= lines);
    }
}

/// Reading sections and values from the text in which they were written gives
/// them back, if each of them fits on a line of its own.
pub proof fn ini_text_reads_back(items: Seq<IniView>)
    requires
        forall|i: int| 0 <= i < items.len() ==> is_writable(#[trigger] items[i]),
    ensures
        ini_parsed(ini_text(items)) == Some(items),
{
    lemma_lines_of_ini_text(items);
    let lines = lines_of(ini_text(items));
    assert forall|i: int| 0 <= i < lines.len() implies ini_line(#[trigger] lines[i]) == Some(
        items[i],
    ) by {
        assert(is_writable(items[i]));
        lemma_line_reads_back(items[i]);
    }
    assert(lines.map_values(|line: Seq<char>| ini_line(line)->0) =~= items);
}

} // verus!

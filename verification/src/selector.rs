//! The selector: a command that shows the handlers and gives back the one that
//! the user picked.
use crate::config_file::ConfigFile;
use crate::desktop_entry::DesktopEntry;
use crate::desktop_list::DesktopHandler;
use crate::error::{Error, ErrorView};
use crate::media_type::Mime;
use crate::template::{filled, format_item, format_selector, Scope};
use crate::text::{
    chars_of, is_white_space, join_texts, joined, same_text, string_of, texts, trimmed_end,
    trimming_the_end_takes_white_space_only,
};
use crate::user_path::UserPath;
use vstd::prelude::*;

verus! {

// ---------------------------------------------------------------------------
// Searching
// ---------------------------------------------------------------------------

/// The position of the first entry of a list that equals `text`.
pub open spec fn first_equal(list: Seq<Seq<char>>, text: Seq<char>) -> Option<int>
    decreases list.len(),
{
    if list.len() == 0 {
        None
    } else {
        match first_equal(list.drop_last(), text) {
            Some(i) => Some(i),
            None => if list.last() == text {
                Some(list.len() - 1)
            } else {
                None
            },
        }
    }
}

/// There is such a position where the text occurs, and then no entry before it
/// equals the text.
pub proof fn first_equal_is_first(list: Seq<Seq<char>>, text: Seq<char>)
    ensures
        match first_equal(list, text) {
            Some(i) => 0 <= i < list.len() && list[i] == text && forall|j: int|
                0 <= j < i ==> #[trigger] list[j] != text,
            None => forall|j: int| 0 <= j < list.len() ==> #[trigger] list[j] != text,
        },
    decreases list.len(),
{
    if list.len() > 0 {
        let init = list.drop_last();
        first_equal_is_first(init, text);
        assert forall|j: int| 0 <= j < init.len() implies init[j] == #[trigger] list[j] by {}
    }
}

/// The position of the first text that equals `text`.
fn find_equal(list: &Vec<String>, text: &str) -> (r: Option<usize>)
    ensures
        first_equal(texts(list@), text@) == match r {
            Some(i) => Some(i as int),
            None => None,
        },
{
    let ghost all = texts(list@);
    let mut i: usize = 0;
    while i < list.len()
        invariant
            i <= all.len(),
            all == texts(list@),
            forall|j: int| 0 <= j < i ==> all[j] != text@,
        decreases all.len() - i,
    {
        assert(all[i as int] == list@[i as int]@);
        if same_text(list[i].as_str(), text) {
            proof {
                first_equal_is_first(all, text@);
            }
            return Some(i);
        }
        i += 1;
    }
    proof {
        first_equal_is_first(all, text@);
    }
    None
}

// ---------------------------------------------------------------------------
// Guessing
// ---------------------------------------------------------------------------

/// The control characters.
pub open spec fn is_control_char(c: char) -> bool {
    c as u32 <= 0x1f || 0x7f <= c as u32 <= 0x9f
}

/// [`char::is_control`]: whether the character has the Unicode category `Cc`.
pub assume_specification[ char::is_control ](c: char) -> (r: bool)
    ensures
        r == is_control_char(c),
;

/// The text before the first control character.
pub open spec fn before_control(text: Seq<char>) -> Seq<char>
    decreases text.len(),
{
    if text.len() == 0 || is_control_char(text[0]) {
        Seq::empty()
    } else {
        seq![text[0]] + before_control(text.drop_first())
    }
}

proof fn lemma_before_control(text: Seq<char>, n: int)
    requires
        0 <= n <= text.len(),
        forall|i: int| 0 <= i < n ==> !is_control_char(#[trigger] text[i]),
        n < text.len() ==> is_control_char(text[n]),
    ensures
        before_control(text) == text.take(n),
    decreases n,
{
    if n > 0 {
        let tail = text.drop_first();
        assert forall|i: int| 0 <= i < n - 1 implies !is_control_char(#[trigger] tail[i]) by {
            assert(tail[i] == text[i + 1]);
        }
        lemma_before_control(tail, n - 1);
        assert(!is_control_char(text[0]));
        assert(text.take(n) =~= seq![text[0]] + tail.take(n - 1));
    } else {
        assert(text.take(0) =~= Seq::empty());
    }
}

/// The text before the first control character.
fn visible_part(text: &str) -> (r: String)
    ensures
        r@ == before_control(text@),
{
    let chars = chars_of(text);
    let mut n: usize = 0;
    while n < chars.len() && !chars[n].is_control()
        invariant
            n <= chars@.len(),
            chars@ == text@,
            forall|i: int| 0 <= i < n ==> !is_control_char(#[trigger] text@[i]),
        decreases chars@.len() - n,
    {
        n += 1;
    }
    proof {
        lemma_before_control(text@, n as int);
        assert(chars@.subrange(0, n as int) =~= text@.take(n as int));
    }
    string_of(&chars, 0, n)
}

/// The handler that the output of the selector stands for: the first whose line
/// it is, or else the first whose name it is, or else the first whose line
/// starts with it and goes on with a control character.
pub open spec fn guessed(
    lines: Seq<Seq<char>>,
    names: Seq<Seq<char>>,
    output: Seq<char>,
) -> Option<int> {
    match first_equal(lines, output) {
        Some(i) => Some(i),
        None => match first_equal(names, output) {
            Some(i) => Some(i),
            None => first_equal(lines.map_values(|line: Seq<char>| before_control(line)), output),
        },
    }
}

/// The names of the entries.
pub open spec fn names_of(entries: Seq<&DesktopEntry>) -> Seq<Seq<char>> {
    entries.map_values(|e: &DesktopEntry| e.name@)
}

/// Try to pair the output of the selector with the correct desktop entry, given
/// each entry with the line that was passed to the selector.
///
/// The output might not be the same as the line: rofi takes
/// `Helix\0icon\x1fhelix`, and gives back `Helix`.
pub fn guess_matching_entry<'e>(items: &Vec<(&'e DesktopEntry, String)>, output: &str) -> (r: Result<
    &'e DesktopEntry,
    Error,
>)
    ensures
        ({
            let lines = items@.map_values(|item: (&DesktopEntry, String)| item.1@);
            let names = items@.map_values(|item: (&DesktopEntry, String)| item.0.name@);
            match guessed(lines, names, output@) {
                Some(i) => 0 <= i < items@.len() && (r matches Ok(entry) && entry == items@[i].0),
                None => r matches Err(e) && e@ == ErrorView::BadSelection(output@),
            }
        }),
{
    let mut lines: Vec<String> = Vec::new();
    let mut names: Vec<String> = Vec::new();
    let mut prefixes: Vec<String> = Vec::new();
    let mut i: usize = 0;
    while i < items.len()
        invariant
            i <= items@.len(),
            lines@.len() == i,
            names@.len() == i,
            prefixes@.len() == i,
            forall|j: int| 0 <= j < i ==> (#[trigger] lines@[j])@ == items@[j].1@,
            forall|j: int| 0 <= j < i ==> (#[trigger] names@[j])@ == items@[j].0.name@,
            forall|j: int|
                0 <= j < i ==> (#[trigger] prefixes@[j])@ == before_control(items@[j].1@),
        decreases items@.len() - i,
    {
        lines.push(items[i].1.clone());
        names.push(items[i].0.name.clone());
        prefixes.push(visible_part(items[i].1.as_str()));
        i += 1;
    }
    let ghost all_lines = items@.map_values(|item: (&DesktopEntry, String)| item.1@);
    let ghost all_names = items@.map_values(|item: (&DesktopEntry, String)| item.0.name@);
    proof {
        assert(texts(lines@) =~= all_lines);
        assert(texts(names@) =~= all_names);
        assert(texts(prefixes@) =~= all_lines.map_values(|line: Seq<char>| before_control(line)));
        first_equal_is_first(all_lines, output@);
        first_equal_is_first(all_names, output@);
        first_equal_is_first(texts(prefixes@), output@);
    }
    if let Some(i) = find_equal(&lines, output) {
        return Ok(items[i].0);
    }
    if let Some(i) = find_equal(&names, output) {
        return Ok(items[i].0);
    }
    if let Some(i) = find_equal(&prefixes, output) {
        return Ok(items[i].0);
    }
    Err(Error::BadSelection(output.to_owned()))
}

/// A line that no other line equals stands for its own handler.
pub proof fn a_line_stands_for_its_handler(
    lines: Seq<Seq<char>>,
    names: Seq<Seq<char>>,
    i: int,
)
    requires
        lines.no_duplicates(),
        0 <= i < lines.len(),
    ensures
        guessed(lines, names, lines[i]) == Some(i),
{
    first_equal_is_first(lines, lines[i]);
}

/// A name that is no line and that no other handler has stands for its handler.
pub proof fn a_name_stands_for_its_handler(
    lines: Seq<Seq<char>>,
    names: Seq<Seq<char>>,
    i: int,
)
    requires
        names.no_duplicates(),
        0 <= i < names.len(),
        !lines.contains(names[i]),
    ensures
        guessed(lines, names, names[i]) == Some(i),
{
    first_equal_is_first(lines, names[i]);
    first_equal_is_first(names, names[i]);
}

/// What a line holds before its first control character stands for its handler,
/// if it is neither a line nor a name, and no other line starts like that.
pub proof fn a_visible_part_stands_for_its_handler(
    lines: Seq<Seq<char>>,
    names: Seq<Seq<char>>,
    i: int,
)
    requires
        0 <= i < lines.len(),
        !lines.contains(before_control(lines[i])),
        !names.contains(before_control(lines[i])),
        forall|j: int|
            0 <= j < lines.len() && j != i ==> before_control(#[trigger] lines[j])
                != before_control(lines[i]),
    ensures
        guessed(lines, names, before_control(lines[i])) == Some(i),
{
    let output = before_control(lines[i]);
    let parts = lines.map_values(|line: Seq<char>| before_control(line));
    first_equal_is_first(lines, output);
    first_equal_is_first(names, output);
    first_equal_is_first(parts, output);
    assert(parts[i] == output);
    if let Some(k) = first_equal(parts, output) {
        assert(parts[k] == before_control(lines[k]));
    }
}

/// What is put in front of a control character is what stands before the first
/// one.
pub proof fn visible_part_ends_at_control(text: Seq<char>, c: char, rest: Seq<char>)
    requires
        is_control_char(c),
        forall|i: int| 0 <= i < text.len() ==> !is_control_char(#[trigger] text[i]),
    ensures
        before_control(text.push(c) + rest) == text,
{
    let all = text.push(c) + rest;
    assert forall|i: int| 0 <= i < text.len() implies !is_control_char(#[trigger] all[i]) by {
        assert(all[i] == text[i]);
    }
    lemma_before_control(all, text.len() as int);
    assert(all.take(text.len() as int) =~= text);
}

/// What is no line, no name and no visible part of a line stands for nothing.
pub proof fn other_outputs_stand_for_nothing(
    lines: Seq<Seq<char>>,
    names: Seq<Seq<char>>,
    output: Seq<char>,
)
    requires
        !lines.contains(output),
        !names.contains(output),
        forall|i: int| 0 <= i < lines.len() ==> before_control(#[trigger] lines[i]) != output,
    ensures
        guessed(lines, names, output) is None,
{
    let parts = lines.map_values(|line: Seq<char>| before_control(line));
    first_equal_is_first(lines, output);
    first_equal_is_first(names, output);
    first_equal_is_first(parts, output);
}

// ---------------------------------------------------------------------------
// Asking
// ---------------------------------------------------------------------------

/// What to run to ask the user.
#[derive(Debug, PartialEq, Eq)]
pub struct SelectorRequest {
    /// The command.
    pub command: String,
    /// What it is to be given as input.
    pub input: String,
}

/// The lines of the entries, each filled in after the same format.
pub open spec fn item_lines(
    format: Seq<char>,
    mime: &Mime,
    path: Option<&UserPath>,
    languages: &Vec<String>,
    entries: Seq<&DesktopEntry>,
) -> Seq<Seq<char>> {
    Seq::new(
        entries.len(),
        |i: int|
            filled(
                format,
                Scope::Item { mime, path, entry: entries[i], index: i as usize, languages },
            ),
    )
}

/// The lines of the entries, each filled in after the same format.
fn format_items(
    format: &str,
    mime: &Mime,
    path: Option<&UserPath>,
    languages: &Vec<String>,
    entries: &Vec<&DesktopEntry>,
) -> (r: Vec<String>)
    ensures
        texts(r@) == item_lines(format@, mime, path, languages, entries@),
{
    let mut lines: Vec<String> = Vec::new();
    let mut i: usize = 0;
    while i < entries.len()
        invariant
            i <= entries@.len(),
            lines@.len() == i,
            forall|j: int|
                0 <= j < i ==> (#[trigger] lines@[j])@ == item_lines(
                    format@,
                    mime,
                    path,
                    languages,
                    entries@,
                )[j],
        decreases entries@.len() - i,
    {
        lines.push(format_item(format, mime, path, entries[i], i, languages));
        i += 1;
    }
    assert(texts(lines@) =~= item_lines(format@, mime, path, languages, entries@));
    lines
}

/// What to run to ask the user which of the entries to take.
pub fn selector_request(
    selector: &str,
    item_format: &str,
    item_separator: &str,
    mime: &Mime,
    path: Option<&UserPath>,
    languages: &Vec<String>,
    entries: &Vec<&DesktopEntry>,
) -> (r: SelectorRequest)
    ensures
        r.command@ == filled(selector@, (Scope::Selector { mime, path })),
        r.input@ == joined(
            item_lines(item_format@, mime, path, languages, entries@),
            item_separator@,
        ),
{
    let lines = format_items(item_format, mime, path, languages, entries);
    SelectorRequest {
        command: format_selector(selector, mime, path),
        input: join_texts(&lines, item_separator),
    }
}

/// The entry that the output of the selector stands for. White space at the end
/// of the output does not count; without output the selection was cancelled.
/// Where the entries have identifiers the first whose identifier is the output
/// is taken; where they have none the entry is guessed.
pub open spec fn selected(
    lines: Seq<Seq<char>>,
    names: Seq<Seq<char>>,
    identifiers: Option<Seq<Seq<char>>>,
    output: Seq<char>,
) -> Result<int, ErrorView> {
    let answer = trimmed_end(output);
    let found = match identifiers {
        Some(ids) => first_equal(ids, answer),
        None => guessed(lines, names, answer),
    };
    if answer.len() == 0 {
        Err(ErrorView::Cancelled)
    } else {
        match found {
            Some(i) => Ok(i),
            None => Err(ErrorView::BadSelection(answer)),
        }
    }
}

/// The identifiers of the entries, if there is a format for them.
pub open spec fn item_identifiers(
    identifier: Seq<char>,
    mime: &Mime,
    path: Option<&UserPath>,
    languages: &Vec<String>,
    entries: Seq<&DesktopEntry>,
) -> Option<Seq<Seq<char>>> {
    if identifier.len() == 0 {
        None
    } else {
        Some(item_lines(identifier, mime, path, languages, entries))
    }
}

/// The entry that the user picked, given the output of the selector.
pub fn select<'e>(
    item_format: &str,
    item_identifier: &str,
    mime: &Mime,
    path: Option<&UserPath>,
    languages: &Vec<String>,
    entries: &Vec<&'e DesktopEntry>,
    output: &str,
) -> (r: Result<&'e DesktopEntry, Error>)
    ensures
        match selected(
            item_lines(item_format@, mime, path, languages, entries@),
            names_of(entries@),
            item_identifiers(item_identifier@, mime, path, languages, entries@),
            output@,
        ) {
            Ok(i) => 0 <= i < entries@.len() && (r matches Ok(entry) && entry == entries@[i]),
            Err(error) => r matches Err(e) && e@ == error,
        },
{
    let answer = output.trim_end();
    if answer.is_empty() {
        return Err(Error::Cancelled);
    }
    if item_identifier.is_empty() {
        let lines = format_items(item_format, mime, path, languages, entries);
        let mut items: Vec<(&'e DesktopEntry, String)> = Vec::new();
        let mut i: usize = 0;
        while i < entries.len()
            invariant
                i <= entries@.len(),
                items@.len() == i,
                lines@.len() == entries@.len(),
                forall|j: int|
                    0 <= j < i ==> (#[trigger] items@[j]).0 == entries@[j] && items@[j].1@
                        == lines@[j]@,
            decreases entries@.len() - i,
        {
            items.push((entries[i], lines[i].clone()));
            i += 1;
        }
        proof {
            assert(items@.map_values(|item: (&DesktopEntry, String)| item.1@) =~= texts(lines@));
            assert(items@.map_values(|item: (&DesktopEntry, String)| item.0.name@) =~= names_of(
                entries@,
            ));
        }
        guess_matching_entry(&items, answer)
    } else {
        let identifiers = format_items(item_identifier, mime, path, languages, entries);
        proof {
            first_equal_is_first(texts(identifiers@), answer@);
        }
        match find_equal(&identifiers, answer) {
            Some(i) => Ok(entries[i]),
            None => Err(Error::BadSelection(answer.to_owned())),
        }
    }
}

/// Where the entries have no identifiers, a line that no other line equals selects
/// its entry, whatever white space the selector puts after it.
pub proof fn a_line_selects_its_entry(
    lines: Seq<Seq<char>>,
    names: Seq<Seq<char>>,
    output: Seq<char>,
    i: int,
)
    requires
        lines.no_duplicates(),
        0 <= i < lines.len(),
        lines[i].len() > 0,
        trimmed_end(output) == lines[i],
    ensures
        selected(lines, names, None, output) == Ok::<int, ErrorView>(i),
{
    a_line_stands_for_its_handler(lines, names, i);
}

/// Without output nothing is selected.
pub proof fn no_output_cancels(
    lines: Seq<Seq<char>>,
    names: Seq<Seq<char>>,
    identifiers: Option<Seq<Seq<char>>>,
    output: Seq<char>,
)
    requires
        trimmed_end(output).len() == 0,
    ensures
        selected(lines, names, identifiers, output) == Err::<int, ErrorView>(ErrorView::Cancelled),
{
}

/// What is selected is one of the entries.
pub proof fn selection_is_an_entry(
    lines: Seq<Seq<char>>,
    names: Seq<Seq<char>>,
    identifiers: Option<Seq<Seq<char>>>,
    output: Seq<char>,
)
    requires
        names.len() == lines.len(),
        identifiers matches Some(ids) ==> ids.len() == lines.len(),
    ensures
        selected(lines, names, identifiers, output) matches Ok(i) ==> 0 <= i < lines.len(),
{
    let answer = trimmed_end(output);
    first_equal_is_first(lines, answer);
    first_equal_is_first(names, answer);
    first_equal_is_first(lines.map_values(|line: Seq<char>| before_control(line)), answer);
    if let Some(ids) = identifiers {
        first_equal_is_first(ids, answer);
    }
}

/// An identifier that no other entry has selects its entry, whatever white space
/// the selector puts after it.
pub proof fn an_identifier_selects_its_entry(
    lines: Seq<Seq<char>>,
    names: Seq<Seq<char>>,
    identifiers: Seq<Seq<char>>,
    output: Seq<char>,
    i: int,
)
    requires
        identifiers.no_duplicates(),
        0 <= i < identifiers.len(),
        identifiers[i].len() > 0,
        trimmed_end(output) == identifiers[i],
    ensures
        selected(lines, names, Some(identifiers), output) == Ok::<int, ErrorView>(i),
{
    first_equal_is_first(identifiers, identifiers[i]);
}

// ---------------------------------------------------------------------------
// Handlers
// ---------------------------------------------------------------------------

/// A handler whose desktop entry could be read.
#[derive(Debug)]
pub struct Candidate<'a> {
    pub handler: DesktopHandler,
    pub entry: &'a DesktopEntry,
}

/// The entries of the candidates.
pub open spec fn entries_of<'a>(candidates: Seq<Candidate<'a>>) -> Seq<&'a DesktopEntry> {
    candidates.map_values(|c: Candidate<'a>| c.entry)
}

/// The entries of the candidates.
fn entry_refs<'a>(candidates: &Vec<Candidate<'a>>) -> (r: Vec<&'a DesktopEntry>)
    ensures
        r@ == entries_of(candidates@),
{
    let mut entries: Vec<&'a DesktopEntry> = Vec::new();
    let mut i: usize = 0;
    while i < candidates.len()
        invariant
            i <= candidates@.len(),
            entries@.len() == i,
            forall|j: int| 0 <= j < i ==> #[trigger] entries@[j] == candidates@[j].entry,
        decreases candidates@.len() - i,
    {
        entries.push(candidates[i].entry);
        i += 1;
    }
    assert(entries@ =~= entries_of(candidates@));
    entries
}

/// The format of the identifiers, empty if there is none.
pub open spec fn identifier_of(config_file: ConfigFile) -> Seq<char> {
    match config_file.selector_handler_identifier {
        Some(identifier) => identifier@,
        None => Seq::empty(),
    }
}

/// What to run to ask the user which of the candidates to take.
pub fn ask_for_handler(
    candidates: &Vec<Candidate>,
    mime: &Mime,
    path: Option<&UserPath>,
    config_file: &ConfigFile,
    languages: &Vec<String>,
) -> (r: SelectorRequest)
    ensures
        r.command@ == filled(config_file.selector@, (Scope::Selector { mime, path })),
        r.input@ == joined(
            item_lines(
                config_file.selector_handler_format@,
                mime,
                path,
                languages,
                entries_of(candidates@),
            ),
            config_file.selector_handler_separator@,
        ),
{
    selector_request(
        config_file.selector.as_str(),
        config_file.selector_handler_format.as_str(),
        config_file.selector_handler_separator.as_str(),
        mime,
        path,
        languages,
        &entry_refs(candidates),
    )
}

/// The candidate that the output of the selector stands for.
pub open spec fn picked(
    candidates: Seq<Candidate>,
    mime: &Mime,
    path: Option<&UserPath>,
    config_file: ConfigFile,
    languages: &Vec<String>,
    output: Seq<char>,
) -> Result<int, ErrorView> {
    let entries = entries_of(candidates);
    selected(
        item_lines(config_file.selector_handler_format@, mime, path, languages, entries),
        names_of(entries),
        item_identifiers(identifier_of(config_file), mime, path, languages, entries),
        output,
    )
}

/// The handler that the user picked, given the output of the selector. Among
/// candidates of the same name it is the first.
pub fn get_handler_from_selector(
    candidates: &Vec<Candidate>,
    mime: &Mime,
    path: Option<&UserPath>,
    config_file: &ConfigFile,
    languages: &Vec<String>,
    output: &str,
) -> (r: Result<DesktopHandler, Error>)
    ensures
        match picked(candidates@, mime, path, *config_file, languages, output@) {
            Ok(i) => 0 <= i < candidates@.len() && (first_equal(
                names_of(entries_of(candidates@)),
                candidates@[i].entry.name@,
            ) matches Some(k) && 0 <= k < candidates@.len() && (r matches Ok(handler) && handler@
                == candidates@[k].handler@)),
            Err(error) => r matches Err(e) && e@ == error,
        },
{
    let entries = entry_refs(candidates);
    let identifier = match &config_file.selector_handler_identifier {
        Some(identifier) => identifier.clone(),
        None => String::new(),
    };
    let entry = match select(
        config_file.selector_handler_format.as_str(),
        identifier.as_str(),
        mime,
        path,
        languages,
        &entries,
        output,
    ) {
        Ok(entry) => entry,
        Err(e) => return Err(e),
    };
    let mut names: Vec<String> = Vec::new();
    let mut i: usize = 0;
    while i < entries.len()
        invariant
            i <= entries@.len(),
            names@.len() == i,
            forall|j: int| 0 <= j < i ==> (#[trigger] names@[j])@ == entries@[j].name@,
        decreases entries@.len() - i,
    {
        names.push(entries[i].name.clone());
        i += 1;
    }
    proof {
        let all = names_of(entries@);
        assert(texts(names@) =~= all);
        let n = picked(candidates@, mime, path, *config_file, languages, output@)->Ok_0;
        assert(entry.name@ == candidates@[n].entry.name@);
        first_equal_is_first(all, entry.name@);
        assert(all[n] == entry.name@);
    }
    match find_equal(&names, entry.name.as_str()) {
        Some(k) => Ok(candidates[k].handler.clone()),
        None => Err(Error::NotFound(mime.to_text())),
    }
}

// ---------------------------------------------------------------------------
// What the output of the selector stands for
// ---------------------------------------------------------------------------

/// A text without control characters is all visible.
pub proof fn text_without_control_is_all_visible(text: Seq<char>)
    requires
        forall|i: int| 0 <= i < text.len() ==> !is_control_char(#[trigger] text[i]),
    ensures
        before_control(text) == text,
{
    lemma_before_control(text, text.len() as int);
    assert(text.take(text.len() as int) =~= text);
}

/// There is one line for each entry, and it is the format filled in for that entry
/// at its position.
pub proof fn every_entry_has_its_line(
    format: Seq<char>,
    mime: &Mime,
    path: Option<&UserPath>,
    languages: &Vec<String>,
    entries: Seq<&DesktopEntry>,
    i: int,
)
    requires
        0 <= i < entries.len(),
    ensures
        item_lines(format, mime, path, languages, entries).len() == entries.len(),
        item_lines(format, mime, path, languages, entries)[i] == filled(
            format,
            (Scope::Item { mime, path, entry: entries[i], index: i as usize, languages }),
        ),
        names_of(entries).len() == entries.len(),
        names_of(entries)[i] == entries[i].name@,
{
}

/// The entries have identifiers exactly if there is a format for them, and they
/// are filled in like the lines.
pub proof fn identifiers_are_filled_in_like_lines(
    identifier: Seq<char>,
    mime: &Mime,
    path: Option<&UserPath>,
    languages: &Vec<String>,
    entries: Seq<&DesktopEntry>,
)
    ensures
        item_identifiers(identifier, mime, path, languages, entries) == if identifier.len() > 0 {
            Some(item_lines(identifier, mime, path, languages, entries))
        } else {
            None
        },
{
}

/// Where the entries have no identifiers, what is guessed is selected.
pub proof fn a_guess_is_selected(
    lines: Seq<Seq<char>>,
    names: Seq<Seq<char>>,
    output: Seq<char>,
)
    requires
        trimmed_end(output).len() > 0,
    ensures
        selected(lines, names, None, output) == match guessed(lines, names, trimmed_end(output)) {
            Some(i) => Ok::<int, ErrorView>(i),
            None => Err(ErrorView::BadSelection(trimmed_end(output))),
        },
{
}

/// Where the entries have no identifiers, the first line that is the output, but
/// for white space after it, selects its entry.
pub proof fn the_first_line_that_is_the_output_is_selected(
    lines: Seq<Seq<char>>,
    names: Seq<Seq<char>>,
    output: Seq<char>,
    i: int,
)
    requires
        0 <= i < lines.len(),
        lines[i].len() > 0,
        trimmed_end(output) == lines[i],
        forall|j: int| 0 <= j < i ==> #[trigger] lines[j] != lines[i],
    ensures
        selected(lines, names, None, output) == Ok::<int, ErrorView>(i),
{
    first_equal_is_first(lines, lines[i]);
}

/// Where the output is no line, the first entry of that name is selected.
pub proof fn the_first_entry_of_the_name_is_selected(
    lines: Seq<Seq<char>>,
    names: Seq<Seq<char>>,
    output: Seq<char>,
    i: int,
)
    requires
        0 <= i < names.len(),
        names[i].len() > 0,
        trimmed_end(output) == names[i],
        forall|j: int| 0 <= j < i ==> #[trigger] names[j] != names[i],
        forall|j: int| 0 <= j < lines.len() ==> #[trigger] lines[j] != names[i],
    ensures
        selected(lines, names, None, output) == Ok::<int, ErrorView>(i),
{
    first_equal_is_first(lines, names[i]);
    first_equal_is_first(names, names[i]);
}

/// Where the output is neither a line nor a name, the first entry is selected
/// whose line holds the output before its first control character.
pub proof fn the_first_visible_part_that_is_the_output_is_selected(
    lines: Seq<Seq<char>>,
    names: Seq<Seq<char>>,
    output: Seq<char>,
    i: int,
)
    requires
        0 <= i < lines.len(),
        before_control(lines[i]).len() > 0,
        trimmed_end(output) == before_control(lines[i]),
        forall|j: int|
            0 <= j < i ==> before_control(#[trigger] lines[j]) != before_control(lines[i]),
        forall|j: int| 0 <= j < lines.len() ==> #[trigger] lines[j] != before_control(lines[i]),
        forall|j: int| 0 <= j < names.len() ==> #[trigger] names[j] != before_control(lines[i]),
    ensures
        selected(lines, names, None, output) == Ok::<int, ErrorView>(i),
{
    let answer = before_control(lines[i]);
    let parts = lines.map_values(|line: Seq<char>| before_control(line));
    first_equal_is_first(lines, answer);
    first_equal_is_first(names, answer);
    first_equal_is_first(parts, answer);
    assert(parts[i] == answer);
    if let Some(k) = first_equal(parts, answer) {
        assert(parts[k] == before_control(lines[k]));
        assert(k <= i);
    }
}

/// An output that is no line, no name and no visible part of a line is refused.
pub proof fn other_outputs_are_refused(
    lines: Seq<Seq<char>>,
    names: Seq<Seq<char>>,
    output: Seq<char>,
)
    requires
        trimmed_end(output).len() > 0,
        forall|j: int|
            0 <= j < lines.len() ==> #[trigger] lines[j] != trimmed_end(output) && before_control(
                lines[j],
            ) != trimmed_end(output),
        forall|j: int| 0 <= j < names.len() ==> #[trigger] names[j] != trimmed_end(output),
    ensures
        selected(lines, names, None, output) == Err::<int, ErrorView>(
            ErrorView::BadSelection(trimmed_end(output)),
        ),
{
    let answer = trimmed_end(output);
    let parts = lines.map_values(|line: Seq<char>| before_control(line));
    first_equal_is_first(lines, answer);
    first_equal_is_first(names, answer);
    first_equal_is_first(parts, answer);
    if let Some(k) = first_equal(parts, answer) {
        assert(parts[k] == before_control(lines[k]));
    }
}

/// Where the entries have identifiers these alone decide: the first that is the
/// output selects its entry, and any other output is refused, whatever the lines
/// and the names.
pub proof fn identifiers_alone_decide(
    lines: Seq<Seq<char>>,
    names: Seq<Seq<char>>,
    identifiers: Seq<Seq<char>>,
    output: Seq<char>,
    i: int,
)
    requires
        trimmed_end(output).len() > 0,
    ensures
        0 <= i < identifiers.len() && identifiers[i] == trimmed_end(output) && (forall|j: int|
            0 <= j < i ==> #[trigger] identifiers[j] != trimmed_end(output)) ==> selected(
            lines,
            names,
            Some(identifiers),
            output,
        ) == Ok::<int, ErrorView>(i),
        (forall|j: int|
            0 <= j < identifiers.len() ==> #[trigger] identifiers[j] != trimmed_end(output))
            ==> selected(lines, names, Some(identifiers), output) == Err::<int, ErrorView>(
            ErrorView::BadSelection(trimmed_end(output)),
        ),
{
    first_equal_is_first(identifiers, trimmed_end(output));
}

/// The line of a candidate as the selector is given it.
pub open spec fn line_of(
    format: Seq<char>,
    mime: &Mime,
    path: Option<&UserPath>,
    languages: &Vec<String>,
    candidates: Seq<Candidate>,
    i: int,
) -> Seq<char> {
    filled(
        format,
        Scope::Item { mime, path, entry: candidates[i].entry, index: i as usize, languages },
    )
}

/// Without a format for identifiers, the output picks the first candidate whose
/// line it is.
pub proof fn a_line_picks_its_candidate(
    candidates: Seq<Candidate>,
    mime: &Mime,
    path: Option<&UserPath>,
    config_file: ConfigFile,
    languages: &Vec<String>,
    output: Seq<char>,
    i: int,
)
    requires
        config_file.selector_handler_identifier is None,
        0 <= i < candidates.len(),
        trimmed_end(output).len() > 0,
        filled(
            config_file.selector_handler_format@,
            (Scope::Item {
                mime,
                path,
                entry: candidates[i].entry,
                index: i as usize,
                languages,
            }),
        ) == trimmed_end(output),
        forall|j: int|
            0 <= j < i ==> #[trigger] line_of(
                config_file.selector_handler_format@,
                mime,
                path,
                languages,
                candidates,
                j,
            ) != trimmed_end(output),
    ensures
        picked(candidates, mime, path, config_file, languages, output) == Ok::<int, ErrorView>(i),
{
    let format = config_file.selector_handler_format@;
    let entries = entries_of(candidates);
    let lines = item_lines(format, mime, path, languages, entries);
    assert forall|j: int| 0 <= j < i implies #[trigger] lines[j] != lines[i] by {
        assert(lines[j] == line_of(format, mime, path, languages, candidates, j));
    }
    the_first_line_that_is_the_output_is_selected(lines, names_of(entries), output, i);
}

/// Without a format for identifiers, an output that is no line picks the first
/// candidate of that name.
pub proof fn a_name_picks_its_candidate(
    candidates: Seq<Candidate>,
    mime: &Mime,
    path: Option<&UserPath>,
    config_file: ConfigFile,
    languages: &Vec<String>,
    output: Seq<char>,
    i: int,
)
    requires
        config_file.selector_handler_identifier is None,
        0 <= i < candidates.len(),
        trimmed_end(output).len() > 0,
        candidates[i].entry.name@ == trimmed_end(output),
        forall|j: int| 0 <= j < i ==> (#[trigger] candidates[j]).entry.name@ != trimmed_end(output),
        forall|j: int|
            0 <= j < candidates.len() ==> #[trigger] line_of(
                config_file.selector_handler_format@,
                mime,
                path,
                languages,
                candidates,
                j,
            ) != trimmed_end(output),
    ensures
        picked(candidates, mime, path, config_file, languages, output) == Ok::<int, ErrorView>(i),
{
    let format = config_file.selector_handler_format@;
    let entries = entries_of(candidates);
    let lines = item_lines(format, mime, path, languages, entries);
    let names = names_of(entries);
    assert forall|j: int| 0 <= j < lines.len() implies #[trigger] lines[j] != names[i] by {
        assert(lines[j] == line_of(format, mime, path, languages, candidates, j));
    }
    assert forall|j: int| 0 <= j < i implies #[trigger] names[j] != names[i] by {
        assert(names[j] == candidates[j].entry.name@);
    }
    the_first_entry_of_the_name_is_selected(lines, names, output, i);
}

/// With a format for identifiers, the output picks the first candidate whose
/// identifier it is.
pub proof fn an_identifier_picks_its_candidate(
    candidates: Seq<Candidate>,
    mime: &Mime,
    path: Option<&UserPath>,
    config_file: ConfigFile,
    languages: &Vec<String>,
    output: Seq<char>,
    i: int,
)
    requires
        config_file.selector_handler_identifier is Some,
        config_file.selector_handler_identifier->0@.len() > 0,
        0 <= i < candidates.len(),
        trimmed_end(output).len() > 0,
        filled(
            config_file.selector_handler_identifier->0@,
            (Scope::Item {
                mime,
                path,
                entry: candidates[i].entry,
                index: i as usize,
                languages,
            }),
        ) == trimmed_end(output),
        forall|j: int|
            0 <= j < i ==> #[trigger] line_of(
                config_file.selector_handler_identifier->0@,
                mime,
                path,
                languages,
                candidates,
                j,
            ) != trimmed_end(output),
    ensures
        picked(candidates, mime, path, config_file, languages, output) == Ok::<int, ErrorView>(i),
{
    let format = config_file.selector_handler_identifier->0@;
    let entries = entries_of(candidates);
    let lines = item_lines(config_file.selector_handler_format@, mime, path, languages, entries);
    let ids = item_lines(format, mime, path, languages, entries);
    assert forall|j: int| 0 <= j < i implies #[trigger] ids[j] != trimmed_end(output) by {
        assert(ids[j] == line_of(format, mime, path, languages, candidates, j));
    }
    identifiers_alone_decide(lines, names_of(entries), ids, output, i);
}

/// With a format for identifiers, an output that is none of them is refused, even
/// if it is the name of a candidate.
pub proof fn what_is_no_identifier_is_refused(
    candidates: Seq<Candidate>,
    mime: &Mime,
    path: Option<&UserPath>,
    config_file: ConfigFile,
    languages: &Vec<String>,
    output: Seq<char>,
)
    requires
        config_file.selector_handler_identifier is Some,
        config_file.selector_handler_identifier->0@.len() > 0,
        trimmed_end(output).len() > 0,
        forall|j: int|
            0 <= j < candidates.len() ==> #[trigger] line_of(
                config_file.selector_handler_identifier->0@,
                mime,
                path,
                languages,
                candidates,
                j,
            ) != trimmed_end(output),
    ensures
        picked(candidates, mime, path, config_file, languages, output) == Err::<int, ErrorView>(
            ErrorView::BadSelection(trimmed_end(output)),
        ),
{
    let format = config_file.selector_handler_identifier->0@;
    let entries = entries_of(candidates);
    let lines = item_lines(config_file.selector_handler_format@, mime, path, languages, entries);
    let ids = item_lines(format, mime, path, languages, entries);
    assert forall|j: int| 0 <= j < ids.len() implies #[trigger] ids[j] != trimmed_end(output) by {
        assert(ids[j] == line_of(format, mime, path, languages, candidates, j));
    }
    identifiers_alone_decide(lines, names_of(entries), ids, output, 0);
}

/// An empty format for identifiers is none.
pub proof fn an_empty_identifier_is_none(
    candidates: Seq<Candidate>,
    mime: &Mime,
    path: Option<&UserPath>,
    config_file: ConfigFile,
    languages: &Vec<String>,
    output: Seq<char>,
)
    requires
        config_file.selector_handler_identifier matches Some(format) ==> format@.len() == 0,
    ensures
        picked(candidates, mime, path, config_file, languages, output) == selected(
            item_lines(
                config_file.selector_handler_format@,
                mime,
                path,
                languages,
                entries_of(candidates),
            ),
            names_of(entries_of(candidates)),
            None,
            output,
        ),
        entries_of(candidates).len() == candidates.len(),
        forall|i: int|
            0 <= i < candidates.len() ==> #[trigger] entries_of(candidates)[i]
                == candidates[i].entry,
{
}

/// Without output nothing is picked.
pub proof fn no_output_picks_nothing(
    candidates: Seq<Candidate>,
    mime: &Mime,
    path: Option<&UserPath>,
    config_file: ConfigFile,
    languages: &Vec<String>,
    output: Seq<char>,
)
    requires
        forall|i: int| 0 <= i < output.len() ==> is_white_space(#[trigger] output[i]),
    ensures
        picked(candidates, mime, path, config_file, languages, output) == Err::<int, ErrorView>(
            ErrorView::Cancelled,
        ),
{
    let n = trimming_the_end_takes_white_space_only(output);
    if n > 0 {
        assert(is_white_space(output[n - 1]));
    }
}

} // verus!

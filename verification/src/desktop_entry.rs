//! Desktop entries: what an application is called and how it is started.
use crate::desktop_file::{
    a_section_is_found_if_there_is_one, attr_values, entry_parsed, first_of, localized,
    section_titled, the_first_section_of_the_title_is_found, Entry, Section, SectionView,
};
use crate::error::{Error, ErrorView};
use crate::field_code::{
    contains_field_code, every_field_code_is_replaced, has_field_code, is_field_code,
    replace_field_codes, substituted,
};
use crate::media_type::{mime_parsed, Mime};
use crate::text::{
    contains_text, distinct_fields, fields_are_the_non_empty_pieces, is_white_space, join_texts,
    joined, same_text, split_distinct, split_on, stands_at, text_without_separator_is_one_field,
    texts, trimmed, trimmed_has_no_white_space_around, trimming_drops_white_space_at_the_end,
};
use vstd::prelude::*;

verus! {

/// Represents a desktop entry file for an application.
#[derive(Debug, Clone, PartialEq, Eq)]
pub struct DesktopEntry {
    /// Name of the application.
    pub name: String,
    /// Command to execute.
    pub command: String,
    /// Name of the desktop entry file, unless it is not Unicode.
    pub file_name: Option<String>,
    /// Whether the program runs in a terminal window.
    pub terminal: bool,
    /// The file from which the other fields were taken. There is none for an
    /// entry that was made up.
    pub entry: Option<Entry>,
}

/// Where a desktop entry file lies.
#[derive(Debug, Clone, PartialEq, Eq)]
pub struct EntryPath {
    /// The whole path.
    pub path: String,
    /// The last part of the path, unless it is not Unicode.
    pub file_name: Option<String>,
}

/// What a command needs to know about its surroundings.
#[derive(Debug)]
pub struct Config {
    /// Whether this process runs in a terminal window.
    pub terminal_output: bool,
    /// The command that runs another one in a terminal emulator, or why there is
    /// none.
    pub terminal: Result<String, Error>,
}

/// Modes for running a desktop entry's command.
#[derive(Debug, PartialEq, Eq, Structural, Copy, Clone)]
pub enum Mode {
    /// Launch the command directly, passing on the given arguments.
    Launch,
    /// Open the given files or URLs with the command.
    Open,
}

/// A command to run.
#[derive(Debug, PartialEq, Eq)]
pub struct Launch {
    /// The command.
    pub command: String,
    /// Whether to wait for its end and to show its output.
    pub wait: bool,
}

/// The section of a desktop entry file that describes the application.
pub const MAIN_SECTION: &'static str = "Desktop Entry";

/// The section that describes the application, if there is a file and it has
/// one.
pub open spec fn main_section_of(entry: Option<Entry>) -> Option<SectionView> {
    match entry {
        Some(e) => section_titled(e@, MAIN_SECTION@),
        None => None,
    }
}

/// All pieces of the values of an attribute. Within one value no piece is empty
/// or occurs twice.
pub open spec fn separated(values: Seq<Seq<char>>, separator: Seq<char>) -> Seq<Seq<char>>
    decreases values.len(),
{
    if values.len() == 0 {
        Seq::empty()
    } else {
        separated(values.drop_last(), separator) + distinct_fields(values.last(), separator)
    }
}

/// The MIME types that a list of texts spells. What is no MIME type is passed
/// over.
pub open spec fn mimes_among(list: Seq<Seq<char>>) -> Seq<Seq<char>>
    decreases list.len(),
{
    if list.len() == 0 {
        Seq::empty()
    } else {
        match mime_parsed(list.last()) {
            Some(mime) => mimes_among(list.drop_last()).push(mime),
            None => mimes_among(list.drop_last()),
        }
    }
}

/// What the main section of a file misses, if it misses anything.
pub open spec fn missing_field(
    entry: Seq<SectionView>,
    languages: Seq<Seq<char>>,
) -> Option<Seq<char>> {
    match section_titled(entry, MAIN_SECTION@) {
        None => Some(MAIN_SECTION@),
        Some(section) => {
            let name = localized(section.attrs, "Name"@, languages);
            let command = first_of(attr_values(section.attrs, "Exec"@, None));
            if name is None {
                Some("Name"@)
            } else if command is None {
                Some("Exec"@)
            } else if name->0.len() == 0 {
                Some("Name"@)
            } else if command->0.len() == 0 {
                Some("Exec"@)
            } else {
                None
            }
        },
    }
}

/// Whether the file says that the application runs in a terminal window.
pub open spec fn runs_in_terminal(section: SectionView) -> bool {
    first_of(attr_values(section.attrs, "Terminal"@, None)) == Some("true"@)
}

/// Whether the desktop entry says of the file what the file says.
pub open spec fn describes(
    desktop: DesktopEntry,
    path: EntryPath,
    entry: Seq<SectionView>,
    languages: Seq<Seq<char>>,
) -> bool {
    let section = section_titled(entry, MAIN_SECTION@)->0;
    &&& Some(desktop.name@) == localized(section.attrs, "Name"@, languages)
    &&& Some(desktop.command@) == first_of(attr_values(section.attrs, "Exec"@, None))
    &&& desktop.file_name == path.file_name
    &&& desktop.terminal == runs_in_terminal(section)
    &&& desktop.entry matches Some(e) && e@ == entry
}

/// A desktop entry that was read from a file has a name and a command.
pub proof fn read_entry_has_name_and_command(
    desktop: DesktopEntry,
    path: EntryPath,
    entry: Seq<SectionView>,
    languages: Seq<Seq<char>>,
)
    requires
        missing_field(entry, languages) is None,
        describes(desktop, path, entry, languages),
    ensures
        desktop.name@.len() > 0,
        desktop.command@.len() > 0,
{
}

impl Default for DesktopEntry {
    fn default() -> (r: Self)
        ensures
            r.name@ == Seq::<char>::empty(),
            r.command@ == Seq::<char>::empty(),
            r.file_name matches Some(file_name) && file_name@ == Seq::<char>::empty(),
            !r.terminal,
            r.entry is None,
    {
        DesktopEntry {
            name: String::new(),
            command: String::new(),
            file_name: Some(String::new()),
            terminal: false,
            entry: None,
        }
    }
}

impl DesktopEntry {
    /// The section that describes the application.
    pub fn main_section(&self) -> (r: Option<&Section>)
        ensures
            main_section_of(self.entry) == match r {
                Some(section) => Some(section@),
                None => None,
            },
    {
        match &self.entry {
            Some(entry) => entry.section(MAIN_SECTION),
            None => None,
        }
    }

    /// The first value of a key of the main section.
    pub fn get_first(&self, key: &str) -> (r: Option<&str>)
        ensures
            (match main_section_of(self.entry) {
                Some(section) => first_of(attr_values(section.attrs, key@, None)),
                None => None,
            }) == match r {
                Some(value) => Some(value@),
                None => None,
            },
    {
        match self.main_section() {
            Some(section) => section.get_first(key),
            None => None,
        }
    }

    /// The value of a key of the main section in the first of the languages for
    /// which there is one, or else the one without a language.
    pub fn get_first_with_language(&self, key: &str, languages: &Vec<String>) -> (r: Option<&str>)
        ensures
            (match main_section_of(self.entry) {
                Some(section) => localized(section.attrs, key@, texts(languages@)),
                None => None,
            }) == match r {
                Some(value) => Some(value@),
                None => None,
            },
    {
        match self.main_section() {
            Some(section) => section.get_first_with_language(key, languages),
            None => None,
        }
    }

    /// All values of a key of the main section.
    pub fn get_all(&self, key: &str) -> (r: Option<Vec<String>>)
        ensures
            match r {
                Some(values) => main_section_of(self.entry) matches Some(section) && texts(values@)
                    == attr_values(section.attrs, key@, None),
                None => main_section_of(self.entry) is None,
            },
    {
        match self.main_section() {
            Some(section) => Some(section.attr(key)),
            None => None,
        }
    }

    /// All pieces of the values of a key of the main section between the
    /// occurrences of the separator.
    pub fn get_all_separated(&self, key: &str, separator: &str) -> (r: Option<Vec<String>>)
        ensures
            match r {
                Some(pieces) => main_section_of(self.entry) matches Some(section) && texts(pieces@)
                    == separated(attr_values(section.attrs, key@, None), separator@),
                None => main_section_of(self.entry) is None,
            },
    {
        let values = match self.get_all(key) {
            Some(values) => values,
            None => return None,
        };
        let ghost all = texts(values@);
        let mut pieces: Vec<String> = Vec::new();
        let mut i: usize = 0;
        assert(texts(pieces@) =~= separated(all.take(0), separator@));
        while i < values.len()
            invariant
                i <= all.len(),
                all == texts(values@),
                texts(pieces@) == separated(all.take(i as int), separator@),
            decreases all.len() - i,
        {
            let ghost before = texts(pieces@);
            let mut more = split_distinct(values[i].as_str(), separator);
            let ghost found = texts(more@);
            pieces.append(&mut more);
            proof {
                assert(all.take(i + 1).drop_last() =~= all.take(i as int));
                assert(all.take(i + 1).last() == values@[i as int]@);
                assert(texts(pieces@) =~= before + found);
            }
            i += 1;
        }
        assert(all.take(i as int) =~= all);
        Some(pieces)
    }

    /// The MIME type(s) supported by this application.
    pub fn mime_type(&self) -> (r: Option<Vec<Mime>>)
        ensures
            match r {
                Some(mimes) => main_section_of(self.entry) matches Some(section)
                    && mimes@.map_values(|m: Mime| m@) == mimes_among(
                    separated(attr_values(section.attrs, "MimeType"@, None), ";"@),
                ),
                None => main_section_of(self.entry) is None,
            },
    {
        let pieces = match self.get_all_separated("MimeType", ";") {
            Some(pieces) => pieces,
            None => return None,
        };
        let ghost all = texts(pieces@);
        let mut mimes: Vec<Mime> = Vec::new();
        let mut i: usize = 0;
        assert(mimes@.map_values(|m: Mime| m@) =~= mimes_among(all.take(0)));
        while i < pieces.len()
            invariant
                i <= all.len(),
                all == texts(pieces@),
                mimes@.map_values(|m: Mime| m@) == mimes_among(all.take(i as int)),
            decreases all.len() - i,
        {
            let ghost before = mimes@.map_values(|m: Mime| m@);
            proof {
                assert(all.take(i + 1).drop_last() =~= all.take(i as int));
                assert(all.take(i + 1).last() == pieces@[i as int]@);
            }
            match Mime::from_str(pieces[i].as_str()) {
                Ok(mime) => {
                    let ghost view = mime@;
                    mimes.push(mime);
                    assert(mimes@.map_values(|m: Mime| m@) =~= before.push(view));
                },
                Err(_) => {},
            }
            i += 1;
        }
        assert(all.take(i as int) =~= all);
        Some(mimes)
    }

    /// Categories in which the entry should be shown in a menu.
    pub fn categories(&self) -> (r: Option<Vec<String>>)
        ensures
            match r {
                Some(pieces) => main_section_of(self.entry) matches Some(section) && texts(pieces@)
                    == separated(attr_values(section.attrs, "Categories"@, None), ";"@),
                None => main_section_of(self.entry) is None,
            },
    {
        self.get_all_separated("Categories", ";")
    }

    /// Check if the given desktop entry represents a terminal emulator.
    pub fn is_terminal_emulator(&self) -> (r: bool)
        ensures
            r == (main_section_of(self.entry) matches Some(section) && separated(
                attr_values(section.attrs, "Categories"@, None),
                ";"@,
            ).contains("TerminalEmulator"@)),
    {
        let categories = match self.categories() {
            Some(categories) => categories,
            None => return false,
        };
        let ghost all = texts(categories@);
        let mut i: usize = 0;
        while i < categories.len()
            invariant
                i <= all.len(),
                all == texts(categories@),
                main_section_of(self.entry) matches Some(section) && all == separated(
                    attr_values(section.attrs, "Categories"@, None),
                    ";"@,
                ),
                forall|j: int| 0 <= j < i ==> all[j] != "TerminalEmulator"@,
            decreases all.len() - i,
        {
            assert(all[i as int] == categories@[i as int]@);
            if same_text(categories[i].as_str(), "TerminalEmulator") {
                return true;
            }
            i += 1;
        }
        false
    }

    /// The desktop entry that a file describes.
    pub fn new(path: &EntryPath, entry: Entry, languages: &Vec<String>) -> (r: Result<
        DesktopEntry,
        Error,
    >)
        ensures
            match r {
                Ok(desktop) => missing_field(entry@, texts(languages@)) is None && describes(
                    desktop,
                    *path,
                    entry@,
                    texts(languages@),
                ),
                Err(e) => missing_field(entry@, texts(languages@)) matches Some(field) && e@
                    == ErrorView::BadEntry(path.path@, field),
            },
    {
        let (name, command, terminal) = match entry.section(MAIN_SECTION) {
            Some(section) => {
                let name = match section.get_first_with_language("Name", languages) {
                    Some(name) => name.to_owned(),
                    None => return Err(Error::BadEntry(path.path.clone(), "Name".to_owned())),
                };
                let command = match section.get_first("Exec") {
                    Some(command) => command.to_owned(),
                    None => return Err(Error::BadEntry(path.path.clone(), "Exec".to_owned())),
                };
                let terminal = match section.get_first("Terminal") {
                    Some(value) => same_text(value, "true"),
                    None => false,
                };
                (name, command, terminal)
            },
            None => return Err(Error::BadEntry(path.path.clone(), MAIN_SECTION.to_owned())),
        };
        if name.as_str().is_empty() {
            Err(Error::BadEntry(path.path.clone(), "Name".to_owned()))
        } else if command.as_str().is_empty() {
            Err(Error::BadEntry(path.path.clone(), "Exec".to_owned()))
        } else {
            let file_name = match &path.file_name {
                Some(file_name) => Some(file_name.clone()),
                None => None,
            };
            Ok(DesktopEntry { name, command, file_name, terminal, entry: Some(entry) })
        }
    }

    /// Parse a desktop entry file, given its path and contents.
    pub fn parse_file(path: &EntryPath, bytes: &[u8], languages: &Vec<String>) -> (r: Result<
        DesktopEntry,
        Error,
    >)
        ensures
            match entry_parsed(bytes@) {
                None => r matches Err(e) && e@ == ErrorView::BadEntryFile(path.path@),
                Some(entry) => match missing_field(entry, texts(languages@)) {
                    Some(field) => r matches Err(e) && e@ == ErrorView::BadEntry(
                        path.path@,
                        field,
                    ),
                    None => r matches Ok(desktop) && describes(
                        desktop,
                        *path,
                        entry,
                        texts(languages@),
                    ),
                },
            },
    {
        match Entry::parse(path.path.as_str(), bytes) {
            Ok(entry) => DesktopEntry::new(path, entry, languages),
            Err(e) => Err(e),
        }
    }

    /// Make a fake DesktopEntry given only its command and whether it runs in a
    /// terminal window.
    /// All other keys will have default values.
    pub fn fake_entry(command: &str, terminal: bool) -> (r: DesktopEntry)
        ensures
            r.name@ == Seq::<char>::empty(),
            r.command@ == command@,
            r.file_name matches Some(file_name) && file_name@ == Seq::<char>::empty(),
            r.terminal == terminal,
            r.entry is None,
    {
        DesktopEntry { command: command.to_owned(), terminal, ..DesktopEntry::default() }
    }
}

// ---------------------------------------------------------------------------
// Running
// ---------------------------------------------------------------------------

/// The command with the arguments in it: in the place of its field codes, or
/// after it if it has none.
pub open spec fn with_arguments(command: Seq<char>, args: Seq<Seq<char>>) -> Seq<char> {
    let all = joined(args, " "@);
    if has_field_code(command) {
        substituted(command, all)
    } else {
        command + " "@ + all
    }
}

/// The command as it is run: in a new terminal emulator, if it needs a terminal
/// window and this process has none, and without white space around it.
pub open spec fn finished(
    terminal: bool,
    config: Config,
    command: Seq<char>,
) -> Result<Seq<char>, ErrorView> {
    if terminal && !config.terminal_output {
        match config.terminal {
            Ok(emulator) => Ok(trimmed(emulator@ + " "@ + command)),
            Err(e) => Err(e@),
        }
    } else {
        Ok(trimmed(command))
    }
}

/// The arguments for each run of the command. All go into one run, unless they
/// are to be opened and the command takes one at a time.
pub open spec fn runs(
    command: Seq<char>,
    mode: Mode,
    args: Seq<Seq<char>>,
) -> Seq<Seq<Seq<char>>> {
    let takes_many = (exists|i: int| stands_at(command, "%F"@, i)) || (exists|i: int|
        stands_at(command, "%U"@, i));
    if args.len() == 0 || takes_many || mode == Mode::Launch {
        seq![args]
    } else {
        args.map_values(|arg: Seq<char>| seq![arg])
    }
}

/// A command is run without white space around it.
pub proof fn finished_command_has_no_white_space_around(
    terminal: bool,
    config: Config,
    command: Seq<char>,
)
    ensures
        finished(terminal, config, command) matches Ok(line) ==> line.len() > 0 ==> !is_white_space(
            line[0],
        ) && !is_white_space(line.last()),
{
    trimmed_has_no_white_space_around(command);
    if let Ok(emulator) = config.terminal {
        trimmed_has_no_white_space_around(emulator@ + " "@ + command);
    }
}

/// Without arguments, a command without field codes is run as it stands.
pub proof fn command_without_arguments_stays(config: Config, command: Seq<char>)
    requires
        !has_field_code(command),
    ensures
        finished(false, config, with_arguments(command, Seq::empty())) == Ok::<
            Seq<char>,
            ErrorView,
        >(trimmed(command)),
{
    reveal_strlit(" ");
    let line = with_arguments(command, Seq::empty());
    assert(line =~= command.push(' '));
    trimming_drops_white_space_at_the_end(command, ' ');
}

/// Over all runs every argument is passed once, in the given order.
pub proof fn every_argument_is_passed_once(command: Seq<char>, mode: Mode, args: Seq<Seq<char>>)
    ensures
        runs(command, mode, args).flatten() == args,
{
    let one_by_one = args.map_values(|arg: Seq<char>| seq![arg]);
    lemma_flattened_singles(args);
    seq![args].lemma_flatten_one_element();
    assert(runs(command, mode, args) == seq![args] || runs(command, mode, args) == one_by_one);
}

proof fn lemma_flattened_singles(args: Seq<Seq<char>>)
    ensures
        args.map_values(|arg: Seq<char>| seq![arg]).flatten() == args,
    decreases args.len(),
{
    let singles = args.map_values(|arg: Seq<char>| seq![arg]);
    if args.len() > 0 {
        let rest = args.drop_first();
        lemma_flattened_singles(rest);
        assert(singles.drop_first() =~= rest.map_values(|arg: Seq<char>| seq![arg]));
        assert(singles.flatten() == singles.first() + singles.drop_first().flatten());
        assert(seq![args[0]] + rest =~= args);
    } else {
        assert(singles.flatten() =~= args);
    }
}

/// Whether a result is the wanted one, seen by its view.
pub open spec fn is_outcome(r: Result<String, Error>, wanted: Result<Seq<char>, ErrorView>) -> bool {
    match r {
        Ok(command) => wanted == Ok::<Seq<char>, ErrorView>(command@),
        Err(e) => wanted == Err::<Seq<char>, ErrorView>(e@),
    }
}

impl DesktopEntry {
    /// The command with the arguments in it, ready to be run.
    pub fn finish_cmd(&self, config: &Config, command: String) -> (r: Result<String, Error>)
        ensures
            is_outcome(r, finished(self.terminal, *config, command@)),
    {
        if self.terminal && !config.terminal_output {
            match &config.terminal {
                Ok(emulator) => {
                    let mut line = emulator.clone();
                    line.append(" ");
                    line.append(command.as_str());
                    Ok(line.as_str().trim().to_owned())
                },
                Err(e) => Err(e.clone()),
            }
        } else {
            Ok(command.as_str().trim().to_owned())
        }
    }

    /// Get the command, formatted with given arguments.
    pub fn get_cmd(&self, config: &Config, args: &Vec<String>) -> (r: Result<String, Error>)
        ensures
            is_outcome(
                r,
                finished(self.terminal, *config, with_arguments(self.command@, texts(args@))),
            ),
    {
        let all = join_texts(args, " ");
        if contains_field_code(self.command.as_str()) {
            let command = replace_field_codes(self.command.as_str(), all.as_str());
            self.finish_cmd(config, command)
        } else {
            // There is no place for the arguments: as a best effort they are
            // appended at the end.
            let mut command = self.command.clone();
            command.append(" ");
            command.append(all.as_str());
            self.finish_cmd(config, command)
        }
    }

    /// The commands to run for the given arguments, in order.
    pub fn execute(&self, config: &Config, mode: Mode, arguments: Vec<String>) -> (r: Result<
        Vec<Launch>,
        Error,
    >)
        ensures
            ({
                let batches = runs(self.command@, mode, texts(arguments@));
                match r {
                    Ok(launches) => launches@.len() == batches.len() && forall|i: int|
                        0 <= i < batches.len() ==> finished(
                            self.terminal,
                            *config,
                            with_arguments(self.command@, #[trigger] batches[i]),
                        ) == Ok::<Seq<char>, ErrorView>(launches@[i].command@) && launches@[i].wait
                            == (self.terminal && config.terminal_output),
                    Err(e) => self.terminal && !config.terminal_output && (
                    config.terminal matches Err(reason) && e@ == reason@),
                }
            }),
    {
        let ghost batches = runs(self.command@, mode, texts(arguments@));
        let wait = self.terminal && config.terminal_output;
        let takes_many = contains_text(self.command.as_str(), "%F") || contains_text(
            self.command.as_str(),
            "%U",
        );
        let mut launches: Vec<Launch> = Vec::new();
        if arguments.len() == 0 || takes_many || mode == Mode::Launch {
            match self.get_cmd(config, &arguments) {
                Ok(command) => launches.push(Launch { command, wait }),
                Err(e) => return Err(e),
            }
            return Ok(launches);
        }
        let mut i: usize = 0;
        while i < arguments.len()
            invariant
                i <= arguments@.len(),
                launches@.len() == i,
                batches == runs(self.command@, mode, texts(arguments@)),
                batches == texts(arguments@).map_values(|arg: Seq<char>| seq![arg]),
                wait == (self.terminal && config.terminal_output),
                forall|j: int|
                    0 <= j < i ==> finished(
                        self.terminal,
                        *config,
                        with_arguments(self.command@, #[trigger] batches[j]),
                    ) == Ok::<Seq<char>, ErrorView>(launches@[j].command@) && launches@[j].wait
                        == wait,
            decreases arguments@.len() - i,
        {
            let mut batch: Vec<String> = Vec::new();
            batch.push(arguments[i].clone());
            assert(texts(batch@) =~= batches[i as int]);
            match self.get_cmd(config, &batch) {
                Ok(command) => launches.push(Launch { command, wait }),
                Err(e) => return Err(e),
            }
            i += 1;
        }
        Ok(launches)
    }
}

// ---------------------------------------------------------------------------
// What an entry takes from its file
// ---------------------------------------------------------------------------

/// The main section is the first one titled `Desktop Entry`, whatever sections
/// stand before and after it.
pub proof fn the_main_section_is_found_anywhere(entry: Entry, i: int)
    requires
        0 <= i < entry@.len(),
        entry@[i].title == "Desktop Entry"@,
        forall|j: int| 0 <= j < i ==> (#[trigger] entry@[j]).title != "Desktop Entry"@,
    ensures
        main_section_of(Some(entry)) == Some(entry@[i]),
{
    the_first_section_of_the_title_is_found(entry@, "Desktop Entry"@, i);
}

/// There is no main section without a file, nor in a file without that title.
pub proof fn there_may_be_no_main_section(entry: Entry)
    ensures
        main_section_of(None) is None,
        (forall|j: int| 0 <= j < entry@.len() ==> (#[trigger] entry@[j]).title != "Desktop Entry"@)
            ==> main_section_of(Some(entry)) is None,
{
    a_section_is_found_if_there_is_one(entry@, "Desktop Entry"@);
}

/// A text is among the pieces of the values exactly if it is not empty and one of
/// the values is split into it.
pub proof fn pieces_come_from_every_value(
    values: Seq<Seq<char>>,
    separator: Seq<char>,
    piece: Seq<char>,
)
    ensures
        separated(values, separator).contains(piece) <==> piece.len() > 0 && exists|i: int|
            0 <= i < values.len() && split_on(#[trigger] values[i], separator).contains(piece),
    decreases values.len(),
{
    if values.len() > 0 {
        let init = values.drop_last();
        let before = separated(init, separator);
        let fields = distinct_fields(values.last(), separator);
        let all = separated(values, separator);
        pieces_come_from_every_value(init, separator, piece);
        fields_are_the_non_empty_pieces(values.last(), separator, piece);
        assert(all == before + fields);
        assert(all.contains(piece) <==> before.contains(piece) || fields.contains(piece)) by {
            if all.contains(piece) {
                let k = choose|k: int| 0 <= k < all.len() && all[k] == piece;
                if k < before.len() {
                    assert(before[k] == piece);
                } else {
                    assert(fields[k - before.len()] == piece);
                }
            }
            if before.contains(piece) {
                let k = choose|k: int| 0 <= k < before.len() && before[k] == piece;
                assert(all[k] == piece);
            }
            if fields.contains(piece) {
                let k = choose|k: int| 0 <= k < fields.len() && fields[k] == piece;
                assert(all[before.len() + k] == piece);
            }
        }
        if before.contains(piece) {
            let i = choose|i: int|
                0 <= i < init.len() && split_on(#[trigger] init[i], separator).contains(piece);
            assert(values[i] == init[i]);
        }
        if fields.contains(piece) {
            assert(split_on(values[values.len() - 1], separator).contains(piece));
        }
        if piece.len() > 0 && exists|i: int|
            0 <= i < values.len() && split_on(#[trigger] values[i], separator).contains(piece) {
            let i = choose|i: int|
                0 <= i < values.len() && split_on(#[trigger] values[i], separator).contains(piece);
            if i < init.len() {
                assert(init[i] == values[i]);
            }
        }
    }
}

/// The pieces of several values are those of one value after the other; those of
/// one value are all different.
pub proof fn pieces_go_value_by_value(
    front: Seq<Seq<char>>,
    value: Seq<char>,
    separator: Seq<char>,
)
    ensures
        separated(front.push(value), separator) == separated(front, separator) + separated(
            seq![value],
            separator,
        ),
        separated(seq![value], separator).no_duplicates(),
        separated(seq![value], separator) == distinct_fields(value, separator),
{
    reveal_with_fuel(separated, 2);
    assert(front.push(value).drop_last() =~= front);
    assert(seq![value].drop_last() =~= Seq::empty());
    assert(separated(seq![value], separator) =~= distinct_fields(value, separator));
    fields_are_the_non_empty_pieces(value, separator, value);
}

/// A value in which the separator does not stand is its own only piece, unless it
/// is empty.
pub proof fn a_value_without_separator_is_one_piece(value: Seq<char>, separator: Seq<char>)
    requires
        separator.len() > 0,
        forall|k: int|
            0 <= k && k + separator.len() <= value.len() ==> #[trigger] value.subrange(
                k,
                k + separator.len(),
            ) != separator,
    ensures
        separated(seq![value], separator) == if value.len() > 0 {
            seq![value]
        } else {
            Seq::empty()
        },
{
    pieces_go_value_by_value(Seq::empty(), value, separator);
    text_without_separator_is_one_field(value, separator);
}

/// A list of texts names the MIME types that its texts spell, in order, and passes
/// over all other texts.
pub proof fn mime_types_go_text_by_text(front: Seq<Seq<char>>, text: Seq<char>)
    ensures
        mimes_among(Seq::empty()) == Seq::<Seq<char>>::empty(),
        mime_parsed(text) is None ==> mimes_among(front.push(text)) == mimes_among(front),
        mime_parsed(text) matches Some(mime) ==> mimes_among(front.push(text)) == mimes_among(
            front,
        ).push(mime),
{
    assert(front.push(text).drop_last() =~= front);
}

/// A MIME type is named exactly if one of the texts spells it.
pub proof fn a_mime_type_is_named_if_spelled(list: Seq<Seq<char>>, mime: Seq<char>)
    ensures
        mimes_among(list).contains(mime) <==> exists|i: int|
            0 <= i < list.len() && mime_parsed(#[trigger] list[i]) == Some(mime),
    decreases list.len(),
{
    if list.len() > 0 {
        let init = list.drop_last();
        let before = mimes_among(init);
        let all = mimes_among(list);
        a_mime_type_is_named_if_spelled(init, mime);
        assert(list[list.len() - 1] == list.last());
        if all.contains(mime) {
            let k = choose|k: int| 0 <= k < all.len() && all[k] == mime;
            if k < before.len() {
                assert(before[k] == mime);
                let i = choose|i: int| 0 <= i < init.len() && mime_parsed(#[trigger] init[i]) == Some(mime);
                assert(list[i] == init[i]);
            } else {
                assert(mime_parsed(list[list.len() - 1]) == Some(mime));
            }
        }
        if exists|i: int| 0 <= i < list.len() && mime_parsed(#[trigger] list[i]) == Some(mime) {
            let i = choose|i: int| 0 <= i < list.len() && mime_parsed(#[trigger] list[i]) == Some(mime);
            if i < init.len() {
                assert(init[i] == list[i]);
                let k = choose|k: int| 0 <= k < before.len() && before[k] == mime;
                assert(all[k] == mime);
            } else {
                assert(all.last() == mime);
            }
        }
    }
}

/// A file without a section titled `Desktop Entry` misses that section.
pub proof fn a_file_can_miss_the_main_section(
    entry: Seq<SectionView>,
    languages: Seq<Seq<char>>,
)
    ensures
        missing_field(entry, languages) == Some("Desktop Entry"@) <==> forall|j: int|
            0 <= j < entry.len() ==> (#[trigger] entry[j]).title != "Desktop Entry"@,
{
    a_section_is_found_if_there_is_one(entry, "Desktop Entry"@);
    reveal_strlit("Desktop Entry");
    reveal_strlit("Name");
    reveal_strlit("Exec");
    assert("Desktop Entry"@.len() == 13 && "Name"@.len() == 4 && "Exec"@.len() == 4);
}

/// A file with a main section misses nothing exactly if the section has a name, in
/// one of the languages or without one, and a command, and both are not empty. If
/// it misses something it is the name or the command; the one that has no value at
/// all is named first, and else the name before the command.
pub proof fn a_file_misses_a_name_or_a_command(
    entry: Seq<SectionView>,
    languages: Seq<Seq<char>>,
    i: int,
)
    requires
        0 <= i < entry.len(),
        entry[i].title == "Desktop Entry"@,
        forall|j: int| 0 <= j < i ==> (#[trigger] entry[j]).title != "Desktop Entry"@,
    ensures
        ({
            let name = localized(entry[i].attrs, "Name"@, languages);
            let commands = attr_values(entry[i].attrs, "Exec"@, None);
            let missing = missing_field(entry, languages);
            &&& missing is None <==> (name matches Some(n) && n.len() > 0) && commands.len() > 0
                && commands[0].len() > 0
            &&& name is None ==> missing == Some("Name"@)
            &&& name is Some && commands.len() == 0 ==> missing == Some("Exec"@)
            &&& name == Some(Seq::<char>::empty()) && commands.len() > 0 ==> missing == Some(
                "Name"@,
            )
            &&& (name matches Some(n) && n.len() > 0) && commands.len() > 0 && commands[0].len()
                == 0 ==> missing == Some("Exec"@)
        }),
{
    the_first_section_of_the_title_is_found(entry, "Desktop Entry"@, i);
}

/// A desktop entry that was read says what the main section of its file says: the
/// name in the preferred language, the first command, and a terminal window where
/// the first value of `Terminal` is `true`.
pub proof fn a_read_entry_says_what_its_file_says(
    desktop: DesktopEntry,
    path: EntryPath,
    entry: Seq<SectionView>,
    languages: Seq<Seq<char>>,
    i: int,
)
    requires
        missing_field(entry, languages) is None,
        describes(desktop, path, entry, languages),
        0 <= i < entry.len(),
        entry[i].title == "Desktop Entry"@,
        forall|j: int| 0 <= j < i ==> (#[trigger] entry[j]).title != "Desktop Entry"@,
    ensures
        localized(entry[i].attrs, "Name"@, languages) == Some(desktop.name@),
        attr_values(entry[i].attrs, "Exec"@, None).len() > 0,
        attr_values(entry[i].attrs, "Exec"@, None)[0] == desktop.command@,
        desktop.terminal <==> attr_values(entry[i].attrs, "Terminal"@, None).len() > 0
            && attr_values(entry[i].attrs, "Terminal"@, None)[0] == "true"@,
        desktop.file_name == path.file_name,
        desktop.entry is Some,
        desktop.entry->0@ == entry,
        main_section_of(desktop.entry) == Some(entry[i]),
{
    the_first_section_of_the_title_is_found(entry, "Desktop Entry"@, i);
}

// ---------------------------------------------------------------------------
// What is run
// ---------------------------------------------------------------------------

/// Launching a command runs it once, with all arguments, whatever the command.
pub proof fn launching_runs_once(command: Seq<char>, args: Seq<Seq<char>>)
    ensures
        runs(command, Mode::Launch, args) == seq![args],
{
}

/// Opening runs a command once where there are no arguments or where `%F` or `%U`
/// stands in it.
pub proof fn opening_runs_once_where_many_fit(
    command: Seq<char>,
    args: Seq<Seq<char>>,
    i: int,
)
    requires
        args.len() == 0 || (0 <= i && i + 1 < command.len() && command[i] == '%' && (command[i + 1]
            == 'F' || command[i + 1] == 'U')),
    ensures
        runs(command, Mode::Open, args) == seq![args],
{
    reveal_strlit("%F");
    reveal_strlit("%U");
    if args.len() > 0 {
        if command[i + 1] == 'F' {
            assert(command.subrange(i, i + 2) =~= "%F"@);
            assert(stands_at(command, "%F"@, i));
        } else {
            assert(command.subrange(i, i + 2) =~= "%U"@);
            assert(stands_at(command, "%U"@, i));
        }
    }
}

/// Otherwise opening runs the command once for each argument, in order.
pub proof fn opening_runs_once_per_argument(command: Seq<char>, args: Seq<Seq<char>>)
    requires
        args.len() > 0,
        forall|i: int|
            0 <= i && i + 1 < command.len() && #[trigger] command[i] == '%' ==> command[i + 1]
                != 'F' && command[i + 1] != 'U',
    ensures
        runs(command, Mode::Open, args).len() == args.len(),
        forall|k: int|
            0 <= k < args.len() ==> #[trigger] runs(command, Mode::Open, args)[k] == seq![args[k]],
{
    reveal_strlit("%F");
    reveal_strlit("%U");
    assert forall|i: int| !stands_at(command, "%F"@, i) by {
        if stands_at(command, "%F"@, i) {
            assert(command.subrange(i, i + 2)[0] == command[i]);
            assert(command.subrange(i, i + 2)[1] == command[i + 1]);
        }
    }
    assert forall|i: int| !stands_at(command, "%U"@, i) by {
        if stands_at(command, "%U"@, i) {
            assert(command.subrange(i, i + 2)[0] == command[i]);
            assert(command.subrange(i, i + 2)[1] == command[i + 1]);
        }
    }
}

/// Where a field code stands in the command, the arguments, with a space between
/// them, take its place.
pub proof fn arguments_take_the_place_of_a_field_code(
    front: Seq<char>,
    letter: char,
    back: Seq<char>,
    args: Seq<Seq<char>>,
)
    requires
        letter == 'f' || letter == 'F' || letter == 'u' || letter == 'U',
    ensures
        with_arguments(front + seq!['%', letter] + back, args) == substituted(
            front,
            joined(args, seq![' ']),
        ) + joined(args, seq![' ']) + substituted(back, joined(args, seq![' '])),
{
    reveal_strlit(" ");
    assert(" "@ =~= seq![' ']);
    every_field_code_is_replaced(front, letter, back, joined(args, " "@));
}

/// A command without field codes has the arguments after it.
pub proof fn arguments_follow_a_command_without_field_codes(
    command: Seq<char>,
    args: Seq<Seq<char>>,
)
    requires
        forall|i: int|
            0 <= i && i + 1 < command.len() && #[trigger] command[i] == '%' ==> command[i + 1]
                != 'f' && command[i + 1] != 'F' && command[i + 1] != 'u' && command[i + 1] != 'U',
    ensures
        with_arguments(command, args) == command + seq![' '] + joined(args, seq![' ']),
{
    reveal_strlit(" ");
    assert(" "@ =~= seq![' ']);
    assert(!has_field_code(command)) by {
        if has_field_code(command) {
            let i = choose|i: int| is_field_code(command, i);
            assert(command[i] == '%');
        }
    }
}

/// A command runs in the terminal emulator exactly if it needs a terminal window
/// and there is none; then the emulator's command stands in front of it. Only then
/// can it fail, for want of an emulator.
pub proof fn the_emulator_is_put_in_front_where_needed(
    terminal: bool,
    config: Config,
    command: Seq<char>,
)
    ensures
        !terminal || config.terminal_output ==> finished(terminal, config, command) == Ok::<
            Seq<char>,
            ErrorView,
        >(trimmed(command)),
        terminal && !config.terminal_output ==> match config.terminal {
            Ok(emulator) => finished(terminal, config, command) == Ok::<Seq<char>, ErrorView>(
                trimmed(emulator@ + seq![' '] + command),
            ),
            Err(e) => finished(terminal, config, command) == Err::<Seq<char>, ErrorView>(e@),
        },
{
    reveal_strlit(" ");
    assert(" "@ =~= seq![' ']);
}

/// A result is the wanted one exactly if both hold the same command or the same
/// error.
pub proof fn an_outcome_is_the_wanted_one(
    r: Result<String, Error>,
    wanted: Result<Seq<char>, ErrorView>,
)
    ensures
        is_outcome(r, wanted) <==> match wanted {
            Ok(command) => r is Ok && r->Ok_0@ == command,
            Err(e) => r is Err && r->Err_0@ == e,
        },
{
}

} // verus!

//! The configuration: the selector and the handlers that go by regular
//! expressions.
use crate::error::{Error, ErrorView};
use crate::text::texts;
use crate::user_path::UserPath;
use lazy_regex::Regex;
use vstd::prelude::*;

verus! {

/// Whether a regular expression matches somewhere in a text, if it is one: what
/// [`lazy_regex::Regex`] finds.
pub uninterp spec fn regex_found(pattern: Seq<char>, text: Seq<char>) -> Option<bool>;

/// [`lazy_regex::Regex::new`] and [`lazy_regex::Regex::is_match`]: whether the
/// regular expression matches somewhere in the text, or nothing if the pattern is
/// no regular expression. It is only claimed that this depends on both texts
/// alone.
#[verifier::external_body]
fn find_regex(pattern: &str, text: &str) -> (r: Option<bool>)
    ensures
        r == regex_found(pattern@, text@),
{
    match Regex::new(pattern) {
        Ok(regex) => Some(regex.is_match(text)),
        Err(_) => None,
    }
}

/// Whether a pattern is a regular expression that matches somewhere in a text.
pub open spec fn regex_matches(pattern: Seq<char>, text: Seq<char>) -> bool {
    regex_found(pattern, text) == Some(true)
}

/// A handler for all paths and URLs that one of its regular expressions matches.
#[derive(Debug, PartialEq, Eq)]
pub struct RegexHandler {
    /// Command to execute.
    pub command: String,
    /// Whether the program runs in a terminal window.
    pub terminal: bool,
    /// The regular expressions.
    pub regexes: Vec<String>,
}

/// The contents of a [`RegexHandler`].
pub struct RegexHandlerView {
    pub command: Seq<char>,
    pub terminal: bool,
    pub regexes: Seq<Seq<char>>,
}

impl View for RegexHandler {
    type V = RegexHandlerView;

    open spec fn view(&self) -> RegexHandlerView {
        RegexHandlerView {
            command: self.command@,
            terminal: self.terminal,
            regexes: texts(self.regexes@),
        }
    }
}

/// Whether one of the regular expressions matches the text.
pub open spec fn any_matches(regexes: Seq<Seq<char>>, text: Seq<char>) -> bool {
    exists|i: int| 0 <= i < regexes.len() && regex_matches(#[trigger] regexes[i], text)
}

impl Clone for RegexHandler {
    fn clone(&self) -> (r: Self)
        ensures
            r@ == self@,
    {
        RegexHandler {
            command: self.command.clone(),
            terminal: self.terminal,
            regexes: crate::desktop_file::copied(&self.regexes),
        }
    }
}

/// Whether one of the regular expressions was found, given what came of each.
pub fn any_found(found: &Vec<Option<bool>>) -> (r: bool)
    ensures
        r == exists|i: int| 0 <= i < found@.len() && #[trigger] found@[i] == Some(true),
{
    let mut i: usize = 0;
    while i < found.len()
        invariant
            i <= found@.len(),
            forall|j: int| 0 <= j < i ==> #[trigger] found@[j] != Some(true),
        decreases found@.len() - i,
    {
        if matches!(found[i], Some(true)) {
            assert(found@[i as int] == Some(true));
            return true;
        }
        i += 1;
    }
    false
}

impl RegexHandler {
    /// Whether one of the regular expressions matches the text.
    pub fn is_match(&self, text: &str) -> (r: bool)
        ensures
            r == any_matches(self@.regexes, text@),
    {
        let ghost regexes = self@.regexes;
        let mut found: Vec<Option<bool>> = Vec::new();
        let mut i: usize = 0;
        while i < self.regexes.len()
            invariant
                i <= regexes.len(),
                regexes == texts(self.regexes@),
                found@.len() == i,
                forall|j: int| 0 <= j < i ==> #[trigger] found@[j] == regex_found(regexes[j], text@),
            decreases regexes.len() - i,
        {
            assert(regexes[i as int] == self.regexes@[i as int]@);
            found.push(find_regex(self.regexes[i].as_str(), text));
            i += 1;
        }
        proof {
            if any_matches(regexes, text@) {
                let k = choose|k: int|
                    0 <= k < regexes.len() && regex_matches(#[trigger] regexes[k], text@);
                assert(found@[k] == Some(true));
            }
            if exists|k: int| 0 <= k < found@.len() && #[trigger] found@[k] == Some(true) {
                let k = choose|k: int| 0 <= k < found@.len() && #[trigger] found@[k] == Some(true);
                assert(regex_matches(regexes[k], text@));
            }
        }
        any_found(&found)
    }
}

/// The handlers that go by regular expressions, in the order in which they are
/// tried.
#[derive(Debug, PartialEq, Eq)]
pub struct RegexApps {
    pub handlers: Vec<RegexHandler>,
}

impl RegexApps {
    /// The first handler that matches the path or URL, given for each whether it
    /// does.
    pub fn first_matching(&self, matching: &Vec<bool>, path: &UserPath) -> (r: Result<
        RegexHandler,
        Error,
    >)
        requires
            matching@.len() == self.handlers@.len(),
        ensures
            match r {
                Ok(handler) => exists|i: int|
                    0 <= i < matching@.len() && handler@ == (#[trigger] self.handlers@[i])@
                        && matching@[i] && forall|j: int| 0 <= j < i ==> !#[trigger] matching@[j],
                Err(e) => e@ == ErrorView::NotFound(path@) && forall|i: int|
                    0 <= i < matching@.len() ==> !#[trigger] matching@[i],
            },
    {
        let mut i: usize = 0;
        while i < self.handlers.len()
            invariant
                i <= self.handlers@.len(),
                matching@.len() == self.handlers@.len(),
                forall|j: int| 0 <= j < i ==> !#[trigger] matching@[j],
            decreases self.handlers@.len() - i,
        {
            if matching[i] {
                return Ok(self.handlers[i].clone());
            }
            i += 1;
        }
        Err(Error::NotFound(path.as_str().to_owned()))
    }

    /// The first handler with a regular expression that matches the path or URL.
    pub fn get_handler(&self, path: &UserPath) -> (r: Result<RegexHandler, Error>)
        ensures
            match r {
                Ok(handler) => exists|i: int|
                    0 <= i < self.handlers@.len() && handler@ == (#[trigger] self.handlers@[i])@
                        && any_matches(handler@.regexes, path@) && forall|j: int|
                        0 <= j < i ==> !any_matches((#[trigger] self.handlers@[j])@.regexes, path@),
                Err(e) => e@ == ErrorView::NotFound(path@) && forall|i: int|
                    0 <= i < self.handlers@.len() ==> !any_matches(
                        (#[trigger] self.handlers@[i])@.regexes,
                        path@,
                    ),
            },
    {
        let mut matching: Vec<bool> = Vec::new();
        let mut i: usize = 0;
        while i < self.handlers.len()
            invariant
                i <= self.handlers@.len(),
                matching@.len() == i,
                forall|j: int|
                    #![trigger matching@[j]]
                    #![trigger self.handlers@[j]]
                    0 <= j < i ==> matching@[j] == any_matches(self.handlers@[j]@.regexes, path@),
            decreases self.handlers@.len() - i,
        {
            matching.push(self.handlers[i].is_match(path.as_str()));
            i += 1;
        }
        self.first_matching(&matching, path)
    }
}

/// The arguments that change the selector for one run.
#[derive(Debug, PartialEq, Eq)]
pub struct SelectorArgs {
    /// Another selector command.
    pub selector: Option<String>,
    /// Whether to enable the selector.
    pub enable_selector: Option<bool>,
}

/// The config file.
#[derive(Debug)]
pub struct ConfigFile {
    /// Whether to enable the selector when multiple handlers are set.
    pub enable_selector: bool,
    /// The selector command to run.
    pub selector: String,
    /// The format for each handler passed to the selector.
    pub selector_handler_format: String,
    /// Separator between handlers when passed to the selector.
    pub selector_handler_separator: String,
    /// Format of the value by which the output of the selector is matched with a
    /// handler. Without it the handler is guessed.
    pub selector_handler_identifier: Option<String>,
    /// Extra arguments to pass to terminal application.
    pub term_exec_args: Option<String>,
    /// Whether to expand wildcards when saving mimeapps.list.
    pub expand_wildcards: bool,
    /// Regex handlers.
    pub handlers: RegexApps,
}

impl Default for ConfigFile {
    fn default() -> (r: Self)
        ensures
            !r.enable_selector,
            r.selector@ == "rofi -dmenu -i -p 'Open With: '"@,
            r.selector_handler_format@ == "{Name}"@,
            r.selector_handler_separator@ == "\n"@,
            r.selector_handler_identifier is None,
            r.term_exec_args matches Some(args) && args@ == "-e"@,
            !r.expand_wildcards,
            r.handlers.handlers@.len() == 0,
    {
        ConfigFile {
            enable_selector: false,
            selector: "rofi -dmenu -i -p 'Open With: '".to_owned(),
            selector_handler_format: "{Name}".to_owned(),
            selector_handler_separator: "\n".to_owned(),
            selector_handler_identifier: None,
            // Required for many xterm-compatible terminal emulators.
            // Unfortunately, messes up emulators that don't accept it.
            term_exec_args: Some("-e".to_owned()),
            expand_wildcards: false,
            handlers: RegexApps { handlers: Vec::new() },
        }
    }
}

impl ConfigFile {
    /// Get the handler associated with a given path or URL from the config
    /// file's regex handlers.
    pub fn get_regex_handler(&self, path: &UserPath) -> (r: Result<RegexHandler, Error>)
        ensures
            match r {
                Ok(handler) => exists|i: int|
                    0 <= i < self.handlers.handlers@.len() && handler@ == (
                    #[trigger] self.handlers.handlers@[i])@ && any_matches(handler@.regexes, path@)
                        && forall|j: int|
                        0 <= j < i ==> !any_matches(
                            (#[trigger] self.handlers.handlers@[j])@.regexes,
                            path@,
                        ),
                Err(e) => e@ == ErrorView::NotFound(path@) && forall|i: int|
                    0 <= i < self.handlers.handlers@.len() ==> !any_matches(
                        (#[trigger] self.handlers.handlers@[i])@.regexes,
                        path@,
                    ),
            },
    {
        self.handlers.get_handler(path)
    }

    /// Override the set selector.
    pub fn override_selector(&mut self, selector_args: SelectorArgs)
        ensures
            final(self).selector@ == match selector_args.selector {
                Some(selector) => selector@,
                None => old(self).selector@,
            },
            final(self).enable_selector == match selector_args.enable_selector {
                Some(enable) => enable,
                None => old(self).enable_selector,
            },
            final(self).selector_handler_format == old(self).selector_handler_format,
            final(self).selector_handler_separator == old(self).selector_handler_separator,
            final(self).selector_handler_identifier == old(self).selector_handler_identifier,
            final(self).term_exec_args == old(self).term_exec_args,
            final(self).expand_wildcards == old(self).expand_wildcards,
            final(self).handlers == old(self).handlers,
    {
        if let Some(selector) = selector_args.selector {
            self.selector = selector;
        }
        self.enable_selector = selector_args.enable_selector.unwrap_or(self.enable_selector);
    }
}

/// A handler matches a text exactly if one of its patterns is found in it; a
/// pattern that is no regular expression is never found.
pub proof fn one_pattern_is_enough(regexes: Seq<Seq<char>>, text: Seq<char>)
    ensures
        any_matches(regexes, text) <==> exists|pattern: Seq<char>|
            regexes.contains(pattern) && #[trigger] regex_found(pattern, text) == Some(true),
{
    if any_matches(regexes, text) {
        let i = choose|i: int| 0 <= i < regexes.len() && regex_matches(#[trigger] regexes[i], text);
        assert(regexes.contains(regexes[i]));
        assert(regex_found(regexes[i], text) == Some(true));
    }
    if exists|pattern: Seq<char>|
        regexes.contains(pattern) && #[trigger] regex_found(pattern, text) == Some(true) {
        let pattern = choose|pattern: Seq<char>|
            regexes.contains(pattern) && #[trigger] regex_found(pattern, text) == Some(true);
        let i = choose|i: int| 0 <= i < regexes.len() && regexes[i] == pattern;
        assert(regex_matches(regexes[i], text));
    }
}

} // verus!

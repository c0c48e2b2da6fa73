//! Which handler opens a MIME type.
use crate::config_file::ConfigFile;
use crate::desktop_entry::DesktopEntry;
use crate::desktop_list::{DesktopHandler, DesktopList};
use crate::error::{Error, ErrorView};
use crate::media_type::Mime;
use crate::mime_apps::{configured, MimeApps};
use crate::selector::{ask_for_handler, entries_of, item_lines, Candidate, SelectorRequest};
use crate::template::{filled, path_names_stand_for_the_path, plain_text_stays, Scope};
use crate::text::joined;
use crate::user_path::UserPath;
use vstd::prelude::*;

verus! {

/// How the handler of a MIME type is found.
#[derive(Debug)]
pub enum Resolution<'a> {
    /// It is this one.
    Handler(DesktopHandler),
    /// The user is to pick one of the candidates.
    Select { request: SelectorRequest, candidates: Vec<Candidate<'a>> },
}

/// The handlers whose entries could be read, each with its entry.
pub open spec fn usable(
    handlers: Seq<Seq<char>>,
    loaded: Seq<Option<DesktopEntry>>,
) -> Seq<(Seq<char>, DesktopEntry)>
    decreases loaded.len(),
{
    if loaded.len() == 0 {
        Seq::empty()
    } else {
        let before = usable(handlers.drop_last(), loaded.drop_last());
        match loaded.last() {
            Some(entry) => before.push((handlers.last(), entry)),
            None => before,
        }
    }
}

/// The candidates, by the name of the handler.
pub open spec fn named(candidates: Seq<Candidate>) -> Seq<(Seq<char>, DesktopEntry)> {
    candidates.map_values(|c: Candidate| (c.handler@, *c.entry))
}

/// The handlers whose entries could be read, each with its entry.
fn usable_handlers<'a>(handlers: &DesktopList, loaded: &'a Vec<Option<DesktopEntry>>) -> (r: Vec<
    Candidate<'a>,
>)
    requires
        handlers@.len() == loaded@.len(),
    ensures
        named(r@) == usable(handlers@, loaded@),
{
    let mut candidates: Vec<Candidate<'a>> = Vec::new();
    let mut i: usize = 0;
    assert(named(candidates@) =~= usable(handlers@.take(0), loaded@.take(0)));
    while i < loaded.len()
        invariant
            i <= loaded@.len(),
            handlers@.len() == loaded@.len(),
            named(candidates@) == usable(handlers@.take(i as int), loaded@.take(i as int)),
        decreases loaded@.len() - i,
    {
        let ghost before = candidates@;
        proof {
            assert(handlers@.take(i + 1).drop_last() =~= handlers@.take(i as int));
            assert(loaded@.take(i + 1).drop_last() =~= loaded@.take(i as int));
        }
        if let Some(entry) = &loaded[i] {
            candidates.push(Candidate { handler: handlers.at(i).clone(), entry });
            assert(named(candidates@) =~= named(before).push((handlers@[i as int], *entry)));
        }
        i += 1;
    }
    assert(handlers@.take(i as int) =~= handlers@);
    assert(loaded@.take(i as int) =~= loaded@);
    candidates
}

/// The position of the first entry that could be read.
pub open spec fn first_loaded(loaded: Seq<Option<DesktopEntry>>) -> Option<int>
    decreases loaded.len(),
{
    if loaded.len() == 0 {
        None
    } else {
        match first_loaded(loaded.drop_last()) {
            Some(i) => Some(i),
            None => if loaded.last() is Some {
                Some(loaded.len() - 1)
            } else {
                None
            },
        }
    }
}

/// There is such a position where an entry could be read, and then none before
/// it could.
pub proof fn first_loaded_is_first(loaded: Seq<Option<DesktopEntry>>)
    ensures
        match first_loaded(loaded) {
            Some(i) => 0 <= i < loaded.len() && loaded[i] is Some && forall|j: int|
                0 <= j < i ==> (#[trigger] loaded[j]) is None,
            None => forall|j: int| 0 <= j < loaded.len() ==> (#[trigger] loaded[j]) is None,
        },
    decreases loaded.len(),
{
    if loaded.len() > 0 {
        let init = loaded.drop_last();
        first_loaded_is_first(init);
        assert forall|j: int| 0 <= j < init.len() implies init[j] == #[trigger] loaded[j] by {}
    }
}

/// The request asks the user to pick one of the candidates.
pub open spec fn asks_for(
    request: SelectorRequest,
    candidates: Seq<Candidate>,
    mime: &Mime,
    path: Option<&UserPath>,
    config_file: ConfigFile,
    languages: &Vec<String>,
) -> bool {
    &&& request.command@ == filled(config_file.selector@, Scope::Selector { mime, path })
    &&& request.input@ == joined(
        item_lines(
            config_file.selector_handler_format@,
            mime,
            path,
            languages,
            entries_of(candidates),
        ),
        config_file.selector_handler_separator@,
    )
}

/// Whether the user is to pick one of the handlers.
pub fn needs_selector(config_file: &ConfigFile, handlers: &DesktopList) -> (r: bool)
    ensures
        r == (config_file.enable_selector && handlers@.len() > 1),
{
    config_file.enable_selector && handlers.len() > 1
}

impl MimeApps {
    /// Get the handler associated with a given MIME type from mimeapps.list's
    /// default apps.
    ///
    /// `loaded` holds, for each of [`MimeApps::configured_handlers`], the desktop
    /// entry if it could be read. Unless the user is to pick, only the first that
    /// could be read counts.
    pub fn get_handler_from_user<'a>(
        &self,
        mime: &Mime,
        path: Option<&UserPath>,
        config_file: &ConfigFile,
        languages: &Vec<String>,
        loaded: &'a Vec<Option<DesktopEntry>>,
    ) -> (r: Result<Resolution<'a>, Error>)
        requires
            self.wf(),
            configured(self.default_apps.pairs(), mime@) matches Some(handlers) ==> handlers.len()
                == loaded@.len(),
        ensures
            match configured(self.default_apps.pairs(), mime@) {
                Some(handlers) => if config_file.enable_selector && handlers.len() > 1 {
                    r matches Ok(Resolution::Select { request, candidates }) && named(candidates@)
                        == usable(handlers, loaded@) && asks_for(
                        request,
                        candidates@,
                        mime,
                        path,
                        *config_file,
                        languages,
                    )
                } else {
                    match first_loaded(loaded@) {
                        Some(i) => r matches Ok(Resolution::Handler(handler)) && handler@
                            == handlers[i],
                        None => r matches Err(e) && e@ == ErrorView::NotFound(mime@),
                    }
                },
                None => r matches Err(e) && e@ == ErrorView::NotFound(mime@),
            },
    {
        let handlers = match self.configured_handlers(mime) {
            Some(handlers) => handlers,
            None => return Err(Error::NotFound(mime.to_text())),
        };
        if needs_selector(config_file, handlers) {
            let candidates = usable_handlers(handlers, loaded);
            let request = ask_for_handler(&candidates, mime, path, config_file, languages);
            return Ok(Resolution::Select { request, candidates });
        }
        proof {
            first_loaded_is_first(loaded@);
        }
        let mut i: usize = 0;
        while i < loaded.len()
            invariant
                i <= loaded@.len(),
                handlers@.len() == loaded@.len(),
                configured(self.default_apps.pairs(), mime@) == Some(handlers@),
                !(config_file.enable_selector && handlers@.len() > 1),
                match first_loaded(loaded@) {
                    Some(k) => i <= k < loaded@.len() && loaded@[k] is Some && forall|j: int|
                        0 <= j < k ==> (#[trigger] loaded@[j]) is None,
                    None => forall|j: int|
                        0 <= j < loaded@.len() ==> (#[trigger] loaded@[j]) is None,
                },
            decreases loaded@.len() - i,
        {
            if loaded[i].is_some() {
                return Ok(Resolution::Handler(handlers.at(i).clone()));
            }
            i += 1;
        }
        Err(Error::NotFound(mime.to_text()))
    }
}

// ---------------------------------------------------------------------------
// Whom the user is asked about, and how
// ---------------------------------------------------------------------------

/// A handler whose entry could be read is usable, with that entry and in its
/// place; one whose entry could not be read is passed over.
pub proof fn usable_goes_handler_by_handler(
    handlers: Seq<Seq<char>>,
    loaded: Seq<Option<DesktopEntry>>,
    handler: Seq<char>,
    entry: DesktopEntry,
)
    ensures
        usable(Seq::empty(), Seq::empty()) == Seq::<(Seq<char>, DesktopEntry)>::empty(),
        usable(handlers.push(handler), loaded.push(Some(entry))) == usable(handlers, loaded).push(
            (handler, entry),
        ),
        usable(handlers.push(handler), loaded.push(None)) == usable(handlers, loaded),
{
    assert(handlers.push(handler).drop_last() =~= handlers);
    assert(loaded.push(Some(entry)).drop_last() =~= loaded);
    assert(loaded.push(None).drop_last() =~= loaded);
}

/// A handler is usable with an entry exactly if this entry was read for it.
pub proof fn a_handler_is_usable_if_its_entry_was_read(
    handlers: Seq<Seq<char>>,
    loaded: Seq<Option<DesktopEntry>>,
    handler: Seq<char>,
    entry: DesktopEntry,
)
    requires
        handlers.len() == loaded.len(),
    ensures
        usable(handlers, loaded).contains((handler, entry)) <==> exists|i: int|
            0 <= i < loaded.len() && #[trigger] loaded[i] == Some(entry) && handlers[i] == handler,
    decreases loaded.len(),
{
    if loaded.len() > 0 {
        let init = loaded.drop_last();
        let names = handlers.drop_last();
        let before = usable(names, init);
        let all = usable(handlers, loaded);
        let pair = (handler, entry);
        a_handler_is_usable_if_its_entry_was_read(names, init, handler, entry);
        if all.contains(pair) {
            let k = choose|k: int| 0 <= k < all.len() && all[k] == pair;
            if k < before.len() {
                assert(before[k] == pair);
                let i = choose|i: int|
                    0 <= i < init.len() && #[trigger] init[i] == Some(entry) && names[i] == handler;
                assert(loaded[i] == Some(entry));
            } else {
                assert(loaded[loaded.len() - 1] == Some(entry));
            }
        }
        if exists|i: int|
            0 <= i < loaded.len() && #[trigger] loaded[i] == Some(entry) && handlers[i] == handler {
            let i = choose|i: int|
                0 <= i < loaded.len() && #[trigger] loaded[i] == Some(entry) && handlers[i]
                    == handler;
            if i < init.len() {
                assert(init[i] == Some(entry));
                let k = choose|k: int| 0 <= k < before.len() && before[k] == pair;
                assert(all[k] == pair);
            } else {
                assert(all.last() == pair);
            }
        }
    }
}

/// Where all entries could be read, all handlers are usable, in their order.
pub proof fn all_handlers_are_usable_if_all_entries_were_read(
    handlers: Seq<Seq<char>>,
    loaded: Seq<Option<DesktopEntry>>,
)
    requires
        handlers.len() == loaded.len(),
        forall|i: int| 0 <= i < loaded.len() ==> (#[trigger] loaded[i]) is Some,
    ensures
        usable(handlers, loaded).len() == handlers.len(),
        forall|i: int|
            0 <= i < handlers.len() ==> #[trigger] usable(handlers, loaded)[i] == (
                handlers[i],
                loaded[i]->0,
            ),
    decreases loaded.len(),
{
    if loaded.len() > 0 {
        let init = loaded.drop_last();
        let names = handlers.drop_last();
        assert forall|i: int| 0 <= i < init.len() implies (#[trigger] init[i]) is Some by {
            assert(init[i] == loaded[i]);
        }
        all_handlers_are_usable_if_all_entries_were_read(names, init);
        assert(loaded[loaded.len() - 1] is Some);
        assert forall|i: int| 0 <= i < handlers.len() implies #[trigger] usable(handlers, loaded)[i]
            == (handlers[i], loaded[i]->0) by {
            if i < init.len() {
                assert(usable(names, init)[i] == (names[i], init[i]->0));
            }
        }
    }
}

/// Each candidate is named by its own handler and entry.
pub proof fn candidates_are_named_one_by_one(candidates: Seq<Candidate>, i: int)
    ensures
        named(candidates).len() == candidates.len(),
        0 <= i < candidates.len() ==> named(candidates)[i] == (
            candidates[i].handler@,
            *candidates[i].entry,
        ),
{
}

/// The user is asked with the command of the configuration, filled in with the
/// MIME type and the path, and with the lines of all candidates, each filled in for
/// its own entry and position, and the separator between them.
pub proof fn the_user_is_asked_about_all_candidates(
    request: SelectorRequest,
    candidates: Seq<Candidate>,
    mime: &Mime,
    path: Option<&UserPath>,
    config_file: ConfigFile,
    languages: &Vec<String>,
)
    requires
        asks_for(request, candidates, mime, path, config_file, languages),
    ensures
        request.command@ == filled(config_file.selector@, (Scope::Selector { mime, path })),
        request.input@ == joined(
            Seq::new(
                candidates.len(),
                |i: int|
                    filled(
                        config_file.selector_handler_format@,
                        (Scope::Item {
                            mime,
                            path,
                            entry: candidates[i].entry,
                            index: i as usize,
                            languages,
                        }),
                    ),
            ),
            config_file.selector_handler_separator@,
        ),
{
    let format = config_file.selector_handler_format@;
    let lines = item_lines(format, mime, path, languages, entries_of(candidates));
    assert(lines =~= Seq::new(
        candidates.len(),
        |i: int|
            filled(
                format,
                Scope::Item {
                    mime,
                    path,
                    entry: candidates[i].entry,
                    index: i as usize,
                    languages,
                },
            ),
    ));
}

/// The path or URL to open goes into the command wherever the configuration names
/// it.
pub proof fn the_command_names_the_path(
    request: SelectorRequest,
    candidates: Seq<Candidate>,
    mime: &Mime,
    path: &UserPath,
    config_file: ConfigFile,
    languages: &Vec<String>,
    plain: Seq<char>,
    name: Seq<char>,
    rest: Seq<char>,
)
    requires
        asks_for(request, candidates, mime, Some(path), config_file, languages),
        config_file.selector@ == plain + ("{"@ + name + "}"@ + rest),
        !plain.contains('{'),
        name == "%Path"@ || name == "%Url"@ || name == "%u"@ || name == "%U"@ || name == "%f"@
            || name == "%F"@,
    ensures
        request.command@ == plain + (path@ + filled(
            rest,
            (Scope::Selector { mime, path: Some(path) }),
        )),
{
    let scope = Scope::Selector { mime, path: Some(path) };
    let entry = arbitrary::<DesktopEntry>();
    plain_text_stays(plain, "{"@ + name + "}"@ + rest, scope);
    path_names_stand_for_the_path(name, rest, mime, Some(path), &entry, 0, languages);
}

/// The path or URL to open goes into the line of every candidate wherever the
/// configuration names it: where a line is nothing but the path, every line is the
/// path.
pub proof fn the_lines_name_the_path(
    request: SelectorRequest,
    candidates: Seq<Candidate>,
    mime: &Mime,
    path: &UserPath,
    config_file: ConfigFile,
    languages: &Vec<String>,
    name: Seq<char>,
)
    requires
        asks_for(request, candidates, mime, Some(path), config_file, languages),
        config_file.selector_handler_format@ == "{"@ + name + "}"@,
        name == "%Path"@ || name == "%Url"@ || name == "%u"@ || name == "%U"@ || name == "%f"@
            || name == "%F"@,
    ensures
        request.input@ == joined(
            Seq::new(candidates.len(), |i: int| path@),
            config_file.selector_handler_separator@,
        ),
{
    let format = config_file.selector_handler_format@;
    let none = Seq::<char>::empty();
    let lines = item_lines(format, mime, Some(path), languages, entries_of(candidates));
    assert(lines =~= Seq::new(candidates.len(), |i: int| path@)) by {
        assert forall|i: int| 0 <= i < lines.len() implies #[trigger] lines[i] == path@ by {
            let entry = candidates[i].entry;
            let index = i as usize;
            let scope = Scope::Item { mime, path: Some(path), entry, index, languages };
            path_names_stand_for_the_path(name, none, mime, Some(path), entry, index, languages);
            assert(format + none =~= format);
            assert(filled(none, scope) =~= none);
            assert(path@ + none =~= path@);
        }
    }
}

} // verus!

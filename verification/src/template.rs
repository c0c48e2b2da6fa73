//! Templates: texts with placeholders `{NAME}`, in which `{{` stands for a
//! brace.
use crate::desktop_entry::{main_section_of, DesktopEntry};
use crate::desktop_file::localized;
use crate::media_type::Mime;
use crate::text::{decimal, decimal_text, same_text, texts};
use crate::user_path::UserPath;
use lazy_regex::{Captures, Regex};
use vstd::prelude::*;

verus! {

// ---------------------------------------------------------------------------
// Values
// ---------------------------------------------------------------------------

/// What placeholders can refer to.
pub enum Scope<'a> {
    /// In the command of the selector.
    Selector { mime: &'a Mime, path: Option<&'a UserPath> },
    /// In the line of one handler.
    Item {
        mime: &'a Mime,
        path: Option<&'a UserPath>,
        entry: &'a DesktopEntry,
        index: usize,
        languages: &'a Vec<String>,
    },
}

/// Whether a placeholder of this name stands for the path or URL to open.
pub open spec fn names_path(name: Seq<char>) -> bool {
    ||| name == "%Path"@
    ||| name == "%Url"@
    ||| name == "%u"@
    ||| name == "%f"@
    ||| name == "%U"@
    ||| name == "%F"@
}

/// The path or URL to open, nothing if there is none.
pub open spec fn path_text(path: Option<&UserPath>) -> Seq<char> {
    match path {
        Some(p) => p@,
        None => Seq::empty(),
    }
}

/// What stands for a placeholder in the command of the selector. One of unknown
/// name stands for itself.
pub open spec fn selector_value(
    mime: Seq<char>,
    path: Option<&UserPath>,
    inner: Seq<char>,
    name: Seq<char>,
) -> Seq<char> {
    if names_path(name) {
        path_text(path)
    } else if name == "%Mime"@ {
        mime
    } else {
        inner
    }
}

/// What stands for a placeholder in the line of a handler. A name without a
/// leading `%` is a key of the desktop entry file, localized with `languages`,
/// and stands for nothing where the file does not have it; only `Name` then
/// stands for the name of the entry. An unknown name with a leading `%` stands
/// for itself, without the braces.
pub open spec fn item_value(
    mime: Seq<char>,
    path: Option<&UserPath>,
    entry: DesktopEntry,
    index: usize,
    languages: Seq<Seq<char>>,
    name: Seq<char>,
) -> Seq<char> {
    if name == "Name"@ {
        match main_section_of(entry.entry) {
            Some(section) => match localized(section.attrs, name, languages) {
                Some(value) => value,
                None => entry.name@,
            },
            None => entry.name@,
        }
    } else if name == "%FileName"@ {
        match entry.file_name {
            Some(file_name) => file_name@,
            None => Seq::empty(),
        }
    } else if names_path(name) {
        path_text(path)
    } else if name == "%Mime"@ {
        mime
    } else if name == "%Index"@ || name == "%Index0"@ || name == "%i"@ {
        decimal(index as nat)
    } else if name == "%Index1"@ || name == "%d"@ {
        decimal((index + 1) as nat)
    } else if name.len() > 0 && name[0] == '%' {
        name
    } else {
        match main_section_of(entry.entry) {
            Some(section) => match localized(section.attrs, name, languages) {
                Some(value) => value,
                None => Seq::empty(),
            },
            None => Seq::empty(),
        }
    }
}

/// Whether a placeholder of this name stands for the path or URL to open.
fn is_path_name(name: &str) -> (r: bool)
    ensures
        r == names_path(name@),
{
    same_text(name, "%Path") || same_text(name, "%Url") || same_text(name, "%u") || same_text(
        name,
        "%f",
    ) || same_text(name, "%U") || same_text(name, "%F")
}

/// The path or URL to open, nothing if there is none.
fn path_or_nothing(path: Option<&UserPath>) -> (r: String)
    ensures
        r@ == path_text(path),
{
    match path {
        Some(p) => p.as_str().to_owned(),
        None => String::new(),
    }
}

/// Whether the text starts with `%`.
fn starts_with_percent(text: &str) -> (r: bool)
    ensures
        r == (text@.len() > 0 && text@[0] == '%'),
{
    text.unicode_len() > 0 && text.get_char(0) == '%'
}

impl<'a> Scope<'a> {
    /// The index of the handler leaves room for the one after it.
    pub open spec fn wf(&self) -> bool {
        self matches Scope::Item { index, .. } ==> index < usize::MAX
    }

    /// What stands for the placeholder `inner` of the given name.
    pub open spec fn placeholder_value(&self, inner: Seq<char>, name: Seq<char>) -> Seq<char> {
        match self {
            Scope::Selector { mime, path } => selector_value(mime@, *path, inner, name),
            Scope::Item { mime, path, entry, index, languages } => item_value(
                mime@,
                *path,
                **entry,
                *index,
                texts(languages@),
                name,
            ),
        }
    }

    /// What stands for a match: `{` if it is the escape `{{`, otherwise what
    /// stands for the placeholder.
    pub fn value(&self, escaped: &str, inner: &str, name: &str) -> (r: String)
        requires
            self.wf(),
        ensures
            r@ == if escaped@.len() == 0 {
                self.placeholder_value(inner@, name@)
            } else {
                "{"@
            },
    {
        if !escaped.is_empty() {
            return "{".to_owned();
        }
        match self {
            Scope::Selector { mime, path } => {
                if is_path_name(name) {
                    path_or_nothing(*path)
                } else if same_text(name, "%Mime") {
                    mime.to_text()
                } else {
                    inner.to_owned()
                }
            },
            Scope::Item { mime, path, entry, index, languages } => {
                if same_text(name, "Name") {
                    match entry.get_first_with_language(name, languages) {
                        Some(value) => value.to_owned(),
                        None => entry.name.clone(),
                    }
                } else if same_text(name, "%FileName") {
                    match &entry.file_name {
                        Some(file_name) => file_name.clone(),
                        None => String::new(),
                    }
                } else if is_path_name(name) {
                    path_or_nothing(*path)
                } else if same_text(name, "%Mime") {
                    mime.to_text()
                } else if same_text(name, "%Index") || same_text(name, "%Index0") || same_text(
                    name,
                    "%i",
                ) {
                    decimal_text(*index)
                } else if same_text(name, "%Index1") || same_text(name, "%d") {
                    decimal_text(*index + 1)
                } else if starts_with_percent(name) {
                    name.to_owned()
                } else {
                    match entry.get_first_with_language(name, languages) {
                        Some(value) => value.to_owned(),
                        None => String::new(),
                    }
                }
            },
        }
    }
}

// ---------------------------------------------------------------------------
// Placeholders
// ---------------------------------------------------------------------------

/// Whether a character beyond ASCII is a word character: what `\w` covers in
/// [`lazy_regex::Regex`].
pub uninterp spec fn unicode_word_char(c: char) -> bool;

/// Whether a character can stand in the name of a placeholder, where `unicode`
/// tells the word characters beyond ASCII.
pub open spec fn is_name_char(c: char, unicode: spec_fn(char) -> bool) -> bool {
    ||| 'a' <= c <= 'z'
    ||| 'A' <= c <= 'Z'
    ||| '0' <= c <= '9'
    ||| c == '_'
    ||| c == '-'
    ||| c as u32 >= 0x80 && unicode(c)
}

/// The end of the run of name characters that starts at position `i`.
pub open spec fn run_end(text: Seq<char>, i: int, unicode: spec_fn(char) -> bool) -> int
    decreases text.len() - i,
{
    if 0 <= i < text.len() && is_name_char(text[i], unicode) {
        run_end(text, i + 1, unicode)
    } else {
        i
    }
}

/// The length of the placeholder with which a text starts, if it starts with
/// one: a brace, perhaps `%`, name characters, and the closing brace.
pub open spec fn placeholder_len(text: Seq<char>, unicode: spec_fn(char) -> bool) -> Option<int> {
    let start = if text.len() > 1 && text[1] == '%' {
        2int
    } else {
        1int
    };
    let end = run_end(text, start, unicode);
    if text.len() > 0 && text[0] == '{' && start < end < text.len() && text[end] == '}' {
        Some(end + 1)
    } else {
        None
    }
}

/// The template with `{` for each `{{`, and with its value for each placeholder.
pub open spec fn expanded(
    template: Seq<char>,
    scope: Scope,
    unicode: spec_fn(char) -> bool,
) -> Seq<char>
    decreases template.len(),
{
    if template.len() == 0 {
        template
    } else if template.len() > 1 && template[0] == '{' && template[1] == '{' {
        "{"@ + expanded(template.skip(2), scope, unicode)
    } else {
        match placeholder_len(template, unicode) {
            Some(n) => if 1 < n <= template.len() {
                scope.placeholder_value(template.take(n), template.subrange(1, n - 1)) + expanded(
                    template.skip(n),
                    scope,
                    unicode,
                )
            } else {
                template
            },
            None => seq![template[0]] + expanded(template.skip(1), scope, unicode),
        }
    }
}

/// The template as it is filled in.
pub open spec fn filled(template: Seq<char>, scope: Scope) -> Seq<char> {
    expanded(template, scope, |c: char| unicode_word_char(c))
}

/// [`lazy_regex::Regex::replace_all`] for the expression
/// `(\{\{)|(\{(%?[\w-]+)})`: from the left, each `{{` and each placeholder is
/// replaced by what [`Scope::value`] makes of the three groups of the match, and
/// all other text stays. Which characters beyond ASCII `\w` covers is not
/// stated.
#[verifier::external_body]
fn replace_placeholders(template: &str, scope: &Scope) -> (r: String)
    requires
        scope.wf(),
    ensures
        r@ == expanded(template@, *scope, |c: char| unicode_word_char(c)),
{
    let group = |c: &Captures, i: usize| c.get(i).map_or(String::new(), |m| m.as_str().to_string());
    Regex::new(r"(\{\{)|(\{(%?[\w-]+)})")
        .unwrap()
        .replace_all(template, |c: &Captures| scope.value(&group(c, 1), &group(c, 2), &group(c, 3)))
        .into_owned()
}

/// Replaces placeholders in the command of the selector.
pub fn format_selector(selector_format: &str, mime: &Mime, path: Option<&UserPath>) -> (r: String)
    ensures
        r@ == filled(selector_format@, (Scope::Selector { mime, path })),
{
    replace_placeholders(selector_format, &Scope::Selector { mime, path })
}

/// Replaces placeholders in the line of a handler.
pub fn format_item(
    item_format: &str,
    mime: &Mime,
    path: Option<&UserPath>,
    entry: &DesktopEntry,
    index: usize,
    languages: &Vec<String>,
) -> (r: String)
    requires
        index < usize::MAX,
    ensures
        r@ == filled(item_format@, (Scope::Item { mime, path, entry, index, languages })),
{
    replace_placeholders(item_format, &Scope::Item { mime, path, entry, index, languages })
}

// ---------------------------------------------------------------------------
// What a template is filled in with
// ---------------------------------------------------------------------------

/// Text before the first brace stays as it is.
pub proof fn plain_text_stays(plain: Seq<char>, rest: Seq<char>, scope: Scope)
    requires
        !plain.contains('{'),
    ensures
        filled(plain + rest, scope) == plain + filled(rest, scope),
    decreases plain.len(),
{
    if plain.len() == 0 {
        assert(plain + rest =~= rest);
        assert(plain + filled(rest, scope) =~= filled(rest, scope));
    } else {
        let template = plain + rest;
        let tail = plain.drop_first();
        assert(plain.contains(plain[0]));
        assert(!tail.contains('{')) by {
            if tail.contains('{') {
                let i = choose|i: int| 0 <= i < tail.len() && tail[i] == '{';
                assert(plain[i + 1] == '{');
            }
        }
        plain_text_stays(tail, rest, scope);
        assert(template.skip(1) =~= tail + rest);
        assert(seq![plain[0]] + (tail + filled(rest, scope)) =~= plain + filled(rest, scope));
    }
}

/// A text without an opening brace is a template for itself.
pub proof fn text_without_braces_stays(text: Seq<char>, scope: Scope)
    requires
        !text.contains('{'),
    ensures
        filled(text, scope) == text,
{
    plain_text_stays(text, Seq::empty(), scope);
    assert(text + Seq::empty() =~= text);
    assert(filled(Seq::empty(), scope) =~= Seq::empty());
}

/// Two braces stand for one, whatever follows them.
pub proof fn two_braces_give_one(rest: Seq<char>, scope: Scope)
    ensures
        filled("{{"@ + rest, scope) == "{"@ + filled(rest, scope),
{
    reveal_strlit("{{");
    assert(("{{"@ + rest).skip(2) =~= rest);
}

/// A name that can stand in a placeholder: name characters, of which there is at
/// least one, perhaps after `%`.
pub open spec fn is_placeholder_name(name: Seq<char>) -> bool {
    let start = if name.len() > 0 && name[0] == '%' {
        1int
    } else {
        0int
    };
    &&& start < name.len()
    &&& forall|i: int|
        start <= i < name.len() ==> is_name_char(
            #[trigger] name[i],
            |c: char| unicode_word_char(c),
        )
}

proof fn lemma_run_end(text: Seq<char>, i: int, end: int, unicode: spec_fn(char) -> bool)
    requires
        0 <= i <= end < text.len(),
        forall|j: int| i <= j < end ==> is_name_char(#[trigger] text[j], unicode),
        !is_name_char(text[end], unicode),
    ensures
        run_end(text, i, unicode) == end,
    decreases end - i,
{
    if i < end {
        lemma_run_end(text, i + 1, end, unicode);
    }
}

/// A placeholder is replaced by its value, and what follows it is filled in on
/// its own.
pub proof fn placeholder_is_replaced(name: Seq<char>, rest: Seq<char>, scope: Scope)
    requires
        is_placeholder_name(name),
    ensures
        filled("{"@ + name + "}"@ + rest, scope) == scope.placeholder_value(
            "{"@ + name + "}"@,
            name,
        ) + filled(rest, scope),
{
    reveal_strlit("{");
    reveal_strlit("}");
    let unicode = |c: char| unicode_word_char(c);
    let whole = "{"@ + name + "}"@;
    let template = whole + rest;
    let n = name.len() as int + 2;
    let start = if name[0] == '%' {
        2int
    } else {
        1int
    };
    assert forall|j: int| start <= j < n - 1 implies is_name_char(
        #[trigger] template[j],
        unicode,
    ) by {
        assert(template[j] == name[j - 1]);
    }
    assert(template[1] == name[0]);
    assert(template[n - 1] == '}');
    if start == 1 {
        assert(is_name_char(name[0], unicode));
    }
    lemma_run_end(template, start, n - 1, unicode);
    assert(placeholder_len(template, unicode) == Some(n));
    assert(template.take(n) =~= whole);
    assert(template.subrange(1, n - 1) =~= name);
    assert(template.skip(n) =~= rest);
}

/// In the command of the selector a placeholder of unknown name stays as it is.
pub proof fn unknown_selector_placeholder_stays(
    name: Seq<char>,
    rest: Seq<char>,
    mime: &Mime,
    path: Option<&UserPath>,
)
    requires
        is_placeholder_name(name),
        !names_path(name),
        name != "%Mime"@,
    ensures
        filled("{"@ + name + "}"@ + rest, (Scope::Selector { mime, path })) == "{"@ + name + "}"@
            + filled(rest, (Scope::Selector { mime, path })),
{
    placeholder_is_replaced(name, rest, Scope::Selector { mime, path });
}

/// The names with a leading `%` that stand for something in the line of a
/// handler.
pub open spec fn is_item_name(name: Seq<char>) -> bool {
    ||| name == "%FileName"@
    ||| names_path(name)
    ||| name == "%Mime"@
    ||| name == "%Index"@
    ||| name == "%Index0"@
    ||| name == "%i"@
    ||| name == "%Index1"@
    ||| name == "%d"@
}

/// In the line of a handler an unknown name with a leading `%` is left, without
/// its braces.
pub proof fn unknown_item_placeholder_loses_its_braces(
    name: Seq<char>,
    rest: Seq<char>,
    mime: &Mime,
    path: Option<&UserPath>,
    entry: &DesktopEntry,
    index: usize,
    languages: &Vec<String>,
)
    requires
        is_placeholder_name(name),
        name[0] == '%',
        !is_item_name(name),
    ensures
        filled(
            "{"@ + name + "}"@ + rest,
            (Scope::Item { mime, path, entry, index, languages }),
        ) == name + filled(rest, (Scope::Item { mime, path, entry, index, languages })),
{
    reveal_strlit("Name");
    placeholder_is_replaced(name, rest, Scope::Item { mime, path, entry, index, languages });
}

/// In the line of a handler a key of the desktop entry stands for its value in
/// the given languages.
pub proof fn key_stands_for_its_localized_value(
    name: Seq<char>,
    rest: Seq<char>,
    mime: &Mime,
    path: Option<&UserPath>,
    entry: &DesktopEntry,
    index: usize,
    languages: &Vec<String>,
)
    requires
        is_placeholder_name(name),
        name[0] != '%',
        main_section_of(entry.entry) matches Some(section) && localized(
            section.attrs,
            name,
            texts(languages@),
        ) is Some,
    ensures
        filled(
            "{"@ + name + "}"@ + rest,
            (Scope::Item { mime, path, entry, index, languages }),
        ) == localized(main_section_of(entry.entry)->0.attrs, name, texts(languages@))->0 + filled(
            rest,
            (Scope::Item { mime, path, entry, index, languages }),
        ),
{
    lemma_item_names_start_with_percent(name);
    placeholder_is_replaced(name, rest, Scope::Item { mime, path, entry, index, languages });
}

proof fn lemma_item_names_start_with_percent(name: Seq<char>)
    ensures
        is_item_name(name) ==> name.len() > 0 && name[0] == '%',
{
    reveal_strlit("%FileName");
    reveal_strlit("%Path");
    reveal_strlit("%Url");
    reveal_strlit("%u");
    reveal_strlit("%f");
    reveal_strlit("%U");
    reveal_strlit("%F");
    reveal_strlit("%Mime");
    reveal_strlit("%Index");
    reveal_strlit("%Index0");
    reveal_strlit("%i");
    reveal_strlit("%Index1");
    reveal_strlit("%d");
}

/// In the line of a handler a key that the desktop entry does not have stands
/// for nothing.
pub proof fn missing_key_stands_for_nothing(
    name: Seq<char>,
    rest: Seq<char>,
    mime: &Mime,
    path: Option<&UserPath>,
    entry: &DesktopEntry,
    index: usize,
    languages: &Vec<String>,
)
    requires
        is_placeholder_name(name),
        name[0] != '%',
        name != "Name"@,
        main_section_of(entry.entry) matches Some(section) ==> localized(
            section.attrs,
            name,
            texts(languages@),
        ) is None,
    ensures
        filled(
            "{"@ + name + "}"@ + rest,
            (Scope::Item { mime, path, entry, index, languages }),
        ) == filled(rest, (Scope::Item { mime, path, entry, index, languages })),
{
    lemma_item_names_start_with_percent(name);
    let scope = Scope::Item { mime, path, entry, index, languages };
    placeholder_is_replaced(name, rest, scope);
    assert(scope.placeholder_value("{"@ + name + "}"@, name) + filled(rest, scope) =~= filled(
        rest,
        scope,
    ));
}

// ---------------------------------------------------------------------------
// What both kinds of templates share
// ---------------------------------------------------------------------------

/// The names that mean the same in the command of the selector and in the line of
/// a handler: those of the path or URL to open, and that of the MIME type.
pub open spec fn is_shared_name(name: Seq<char>) -> bool {
    names_path(name) || name == "%Mime"@
}

/// Whether all placeholders that occur in a template have a shared name.
pub open spec fn has_shared_names_only(
    template: Seq<char>,
    unicode: spec_fn(char) -> bool,
) -> bool
    decreases template.len(),
{
    if template.len() == 0 {
        true
    } else if template.len() > 1 && template[0] == '{' && template[1] == '{' {
        has_shared_names_only(template.skip(2), unicode)
    } else {
        match placeholder_len(template, unicode) {
            Some(n) => 1 < n <= template.len() && is_shared_name(template.subrange(1, n - 1))
                && has_shared_names_only(template.skip(n), unicode),
            None => has_shared_names_only(template.skip(1), unicode),
        }
    }
}

proof fn lemma_shared_value(
    inner: Seq<char>,
    name: Seq<char>,
    mime: &Mime,
    path: Option<&UserPath>,
    entry: &DesktopEntry,
    index: usize,
    languages: &Vec<String>,
)
    requires
        is_shared_name(name),
    ensures
        (Scope::Selector { mime, path }).placeholder_value(inner, name) == (Scope::Item {
            mime,
            path,
            entry,
            index,
            languages,
        }).placeholder_value(inner, name),
{
    reveal_strlit("Name");
    reveal_strlit("%FileName");
    reveal_strlit("%Path");
    reveal_strlit("%Url");
    reveal_strlit("%u");
    reveal_strlit("%f");
    reveal_strlit("%U");
    reveal_strlit("%F");
    reveal_strlit("%Mime");
    assert(name[0] == '%' && "Name"@[0] == 'N');
    assert(name.len() <= 5 && "%FileName"@.len() == 9);
}

proof fn lemma_shared_expansion(
    template: Seq<char>,
    unicode: spec_fn(char) -> bool,
    mime: &Mime,
    path: Option<&UserPath>,
    entry: &DesktopEntry,
    index: usize,
    languages: &Vec<String>,
)
    requires
        has_shared_names_only(template, unicode),
    ensures
        expanded(template, (Scope::Selector { mime, path }), unicode) == expanded(
            template,
            (Scope::Item { mime, path, entry, index, languages }),
            unicode,
        ),
    decreases template.len(),
{
    if template.len() == 0 {
    } else if template.len() > 1 && template[0] == '{' && template[1] == '{' {
        lemma_shared_expansion(template.skip(2), unicode, mime, path, entry, index, languages);
    } else {
        match placeholder_len(template, unicode) {
            Some(n) => {
                let name = template.subrange(1, n - 1);
                lemma_shared_value(template.take(n), name, mime, path, entry, index, languages);
                lemma_shared_expansion(
                    template.skip(n),
                    unicode,
                    mime,
                    path,
                    entry,
                    index,
                    languages,
                );
            },
            None => {
                lemma_shared_expansion(
                    template.skip(1),
                    unicode,
                    mime,
                    path,
                    entry,
                    index,
                    languages,
                );
            },
        }
    }
}

/// A template whose placeholders all have shared names is filled in alike in the
/// command of the selector and in the line of a handler, whatever the handler.
pub proof fn shared_names_are_filled_in_alike(
    template: Seq<char>,
    mime: &Mime,
    path: Option<&UserPath>,
    entry: &DesktopEntry,
    index: usize,
    languages: &Vec<String>,
)
    requires
        has_shared_names_only(template, |c: char| unicode_word_char(c)),
    ensures
        filled(template, (Scope::Selector { mime, path })) == filled(
            template,
            (Scope::Item { mime, path, entry, index, languages }),
        ),
{
    lemma_shared_expansion(
        template,
        |c: char| unicode_word_char(c),
        mime,
        path,
        entry,
        index,
        languages,
    );
}

/// Each of the names of the path or URL to open stands for it, or for nothing if
/// there is none.
pub proof fn path_names_stand_for_the_path(
    name: Seq<char>,
    rest: Seq<char>,
    mime: &Mime,
    path: Option<&UserPath>,
    entry: &DesktopEntry,
    index: usize,
    languages: &Vec<String>,
)
    requires
        names_path(name),
    ensures
        filled("{"@ + name + "}"@ + rest, (Scope::Selector { mime, path })) == path_text(path)
            + filled(rest, (Scope::Selector { mime, path })),
        filled(
            "{"@ + name + "}"@ + rest,
            (Scope::Item { mime, path, entry, index, languages }),
        ) == path_text(path) + filled(rest, (Scope::Item { mime, path, entry, index, languages })),
{
    let inner = "{"@ + name + "}"@;
    lemma_path_names_are_placeholder_names(name);
    placeholder_is_replaced(name, rest, Scope::Selector { mime, path });
    placeholder_is_replaced(name, rest, Scope::Item { mime, path, entry, index, languages });
    lemma_shared_value(inner, name, mime, path, entry, index, languages);
}

proof fn lemma_path_names_are_placeholder_names(name: Seq<char>)
    requires
        names_path(name),
    ensures
        is_placeholder_name(name),
{
    reveal_strlit("%Path");
    reveal_strlit("%Url");
    reveal_strlit("%u");
    reveal_strlit("%f");
    reveal_strlit("%U");
    reveal_strlit("%F");
}

/// The path or URL to open goes by six names.
pub proof fn the_path_goes_by_six_names(name: Seq<char>)
    ensures
        names_path(name) <==> name == "%Path"@ || name == "%Url"@ || name == "%u"@ || name
            == "%U"@ || name == "%f"@ || name == "%F"@,
        path_text(None) == Seq::<char>::empty(),
        forall|path: &UserPath| #[trigger] path_text(Some(path)) == path@,
{
}

/// `%Mime` stands for the MIME type in both kinds of templates.
pub proof fn the_mime_name_stands_for_the_mime_type(
    rest: Seq<char>,
    mime: &Mime,
    path: Option<&UserPath>,
    entry: &DesktopEntry,
    index: usize,
    languages: &Vec<String>,
)
    ensures
        filled("{%Mime}"@ + rest, (Scope::Selector { mime, path })) == mime@ + filled(
            rest,
            (Scope::Selector { mime, path }),
        ),
        filled("{%Mime}"@ + rest, (Scope::Item { mime, path, entry, index, languages })) == mime@
            + filled(rest, (Scope::Item { mime, path, entry, index, languages })),
{
    let name = "%Mime"@;
    reveal_strlit("{%Mime}");
    reveal_strlit("{");
    reveal_strlit("}");
    reveal_strlit("%Mime");
    reveal_strlit("%Path");
    reveal_strlit("%Url");
    reveal_strlit("%u");
    reveal_strlit("%U");
    reveal_strlit("%f");
    reveal_strlit("%F");
    let inner = "{"@ + name + "}"@;
    assert(inner =~= "{%Mime}"@);
    assert(is_placeholder_name(name));
    assert(!names_path(name)) by {
        assert(name[1] == 'M' && "%Path"@[1] == 'P');
        assert(name.len() == 5 && "%Url"@.len() == 4 && "%u"@.len() == 2 && "%U"@.len() == 2
            && "%f"@.len() == 2 && "%F"@.len() == 2);
    }
    placeholder_is_replaced(name, rest, Scope::Selector { mime, path });
    placeholder_is_replaced(name, rest, Scope::Item { mime, path, entry, index, languages });
    lemma_shared_value(inner, name, mime, path, entry, index, languages);
}

/// In the line of a handler `%Index`, `%Index0` and `%i` stand for its position
/// counted from zero, and `%Index1` and `%d` for its position counted from one.
pub proof fn index_names_stand_for_the_position(
    name: Seq<char>,
    rest: Seq<char>,
    mime: &Mime,
    path: Option<&UserPath>,
    entry: &DesktopEntry,
    index: usize,
    languages: &Vec<String>,
)
    ensures
        name == "%Index"@ || name == "%Index0"@ || name == "%i"@ ==> filled(
            "{"@ + name + "}"@ + rest,
            (Scope::Item { mime, path, entry, index, languages }),
        ) == decimal(index as nat) + filled(
            rest,
            (Scope::Item { mime, path, entry, index, languages }),
        ),
        name == "%Index1"@ || name == "%d"@ ==> filled(
            "{"@ + name + "}"@ + rest,
            (Scope::Item { mime, path, entry, index, languages }),
        ) == decimal((index + 1) as nat) + filled(
            rest,
            (Scope::Item { mime, path, entry, index, languages }),
        ),
{
    let scope = Scope::Item { mime, path, entry, index, languages };
    if name == "%Index"@ || name == "%Index0"@ || name == "%i"@ || name == "%Index1"@ || name
        == "%d"@ {
        lemma_index_names(name);
        placeholder_is_replaced(name, rest, scope);
    }
}

proof fn lemma_index_names(name: Seq<char>)
    requires
        name == "%Index"@ || name == "%Index0"@ || name == "%i"@ || name == "%Index1"@ || name
            == "%d"@,
    ensures
        is_placeholder_name(name),
        name != "Name"@,
        name != "%FileName"@,
        name != "%Mime"@,
        !names_path(name),
        name == "%Index1"@ || name == "%d"@ ==> name != "%Index"@ && name != "%Index0"@ && name
            != "%i"@,
{
    reveal_strlit("Name");
    reveal_strlit("%FileName");
    reveal_strlit("%Mime");
    reveal_strlit("%Path");
    reveal_strlit("%Url");
    reveal_strlit("%u");
    reveal_strlit("%U");
    reveal_strlit("%f");
    reveal_strlit("%F");
    reveal_strlit("%Index");
    reveal_strlit("%Index0");
    reveal_strlit("%i");
    reveal_strlit("%Index1");
    reveal_strlit("%d");
    assert(name[0] == '%' && "Name"@[0] == 'N');
    assert(name.len() != 9 && "%FileName"@.len() == 9);
    assert(name.len() != 5 && name.len() != 4 && "%Mime"@.len() == 5 && "%Path"@.len() == 5
        && "%Url"@.len() == 4);
    assert((name[1] == 'I' || name[1] == 'i' || name[1] == 'd') && "%u"@[1] == 'u' && "%U"@[1]
        == 'U' && "%f"@[1] == 'f' && "%F"@[1] == 'F');
    assert("%Index0"@[6] == '0' && "%Index1"@[6] == '1' && "%i"@[1] == 'i' && "%d"@[1] == 'd');
    assert("%Index"@.len() == 6 && "%Index1"@.len() == 7 && "%i"@.len() == 2 && "%d"@.len() == 2
        && "%Index0"@.len() == 7);
}

/// In the line of a handler `%FileName` stands for the name of the desktop entry
/// file, or for nothing where it is not Unicode.
pub proof fn the_file_name_stands_for_the_file(
    rest: Seq<char>,
    mime: &Mime,
    path: Option<&UserPath>,
    entry: &DesktopEntry,
    index: usize,
    languages: &Vec<String>,
)
    ensures
        filled("{%FileName}"@ + rest, (Scope::Item { mime, path, entry, index, languages })) == (
        match entry.file_name {
            Some(file_name) => file_name@,
            None => Seq::empty(),
        }) + filled(rest, (Scope::Item { mime, path, entry, index, languages })),
{
    let name = "%FileName"@;
    reveal_strlit("{%FileName}");
    reveal_strlit("{");
    reveal_strlit("}");
    reveal_strlit("%FileName");
    reveal_strlit("Name");
    assert("{"@ + name + "}"@ =~= "{%FileName}"@);
    assert(is_placeholder_name(name));
    assert(name.len() == 9 && "Name"@.len() == 4);
    placeholder_is_replaced(name, rest, Scope::Item { mime, path, entry, index, languages });
}

/// In the line of a handler whose file gives no name, `Name` stands for the name
/// of the entry.
pub proof fn the_name_falls_back_to_that_of_the_entry(
    rest: Seq<char>,
    mime: &Mime,
    path: Option<&UserPath>,
    entry: &DesktopEntry,
    index: usize,
    languages: &Vec<String>,
)
    requires
        main_section_of(entry.entry) matches Some(section) ==> localized(
            section.attrs,
            "Name"@,
            texts(languages@),
        ) is None,
    ensures
        filled("{Name}"@ + rest, (Scope::Item { mime, path, entry, index, languages }))
            == entry.name@ + filled(rest, (Scope::Item { mime, path, entry, index, languages })),
{
    let name = "Name"@;
    reveal_strlit("{Name}");
    reveal_strlit("{");
    reveal_strlit("}");
    reveal_strlit("Name");
    assert("{"@ + name + "}"@ =~= "{Name}"@);
    assert(is_placeholder_name(name));
    placeholder_is_replaced(name, rest, Scope::Item { mime, path, entry, index, languages });
}

/// An opening brace after which no name and no other brace can start stays as it
/// is.
pub proof fn a_lone_brace_stays(c: char, rest: Seq<char>, scope: Scope)
    requires
        (c as u32) < 0x80,
        c != '{' && c != '%' && c != '_' && c != '-',
        !('a' <= c <= 'z') && !('A' <= c <= 'Z') && !('0' <= c <= '9'),
    ensures
        filled(seq!['{', c] + rest, scope) == seq!['{'] + filled(seq![c] + rest, scope),
{
    let template = seq!['{', c] + rest;
    assert(template[0] == '{' && template[1] == c);
    assert(template.skip(1) =~= seq![c] + rest);
    assert(run_end(template, 1, |c: char| unicode_word_char(c)) == 1);
}

/// A brace at the end stays as it is.
pub proof fn a_brace_at_the_end_stays(scope: Scope)
    ensures
        filled(seq!['{'], scope) == seq!['{'],
{
    let template = seq!['{'];
    assert(template.skip(1) =~= Seq::empty());
    assert(run_end(template, 1, |c: char| unicode_word_char(c)) == 1);
    assert(filled(Seq::empty(), scope) =~= Seq::empty());
    assert(seq!['{'] + Seq::<char>::empty() =~= seq!['{']);
}

/// ASCII letters, digits, underscores and hyphens make a name, also after `%`.
pub proof fn ascii_names_are_placeholder_names(name: Seq<char>)
    requires
        name.len() > 0,
        forall|i: int|
            0 <= i < name.len() ==> 'a' <= #[trigger] name[i] <= 'z' || 'A' <= name[i] <= 'Z'
                || '0' <= name[i] <= '9' || name[i] == '_' || name[i] == '-',
    ensures
        is_placeholder_name(name),
        is_placeholder_name(seq!['%'] + name),
{
    let whole = seq!['%'] + name;
    assert(name[0] != '%');
    assert forall|i: int| 1 <= i < whole.len() implies is_name_char(
        #[trigger] whole[i],
        |c: char| unicode_word_char(c),
    ) by {
        assert(whole[i] == name[i - 1]);
    }
}

} // verus!

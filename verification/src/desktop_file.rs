//! Desktop entry files: sections of attributes, some of them localized.
use crate::error::{Error, ErrorView};
use crate::text::{same_text, texts};
use vstd::prelude::*;

verus! {

/// An attribute: `key=value`, or `key[param]=value`. It holds one value for
/// each line on which it occurs.
#[derive(Debug, Clone, PartialEq, Eq)]
pub struct Attr {
    pub key: String,
    pub param: Option<String>,
    pub values: Vec<String>,
}

/// The contents of an [`Attr`].
pub struct AttrView {
    pub key: Seq<char>,
    pub param: Option<Seq<char>>,
    pub values: Seq<Seq<char>>,
}

/// The characters of a text that may be missing.
pub open spec fn optional_text(text: Option<String>) -> Option<Seq<char>> {
    match text {
        Some(t) => Some(t@),
        None => None,
    }
}

impl View for Attr {
    type V = AttrView;

    open spec fn view(&self) -> AttrView {
        AttrView {
            key: self.key@,
            param: optional_text(self.param),
            values: texts(self.values@),
        }
    }
}

/// A section: a title and the attributes below it.
#[derive(Debug, Clone, PartialEq, Eq)]
pub struct Section {
    pub title: String,
    pub attrs: Vec<Attr>,
}

/// The contents of a [`Section`].
pub struct SectionView {
    pub title: Seq<char>,
    pub attrs: Seq<AttrView>,
}

impl View for Section {
    type V = SectionView;

    open spec fn view(&self) -> SectionView {
        SectionView { title: self.title@, attrs: self.attrs@.map_values(|a: Attr| a@) }
    }
}

/// A desktop entry file.
#[derive(Debug, Clone, PartialEq, Eq)]
pub struct Entry {
    pub sections: Vec<Section>,
}

impl View for Entry {
    type V = Seq<SectionView>;

    open spec fn view(&self) -> Seq<SectionView> {
        self.sections@.map_values(|s: Section| s@)
    }
}

/// The section of the given title.
pub open spec fn section_titled(
    sections: Seq<SectionView>,
    title: Seq<char>,
) -> Option<SectionView>
    decreases sections.len(),
{
    if sections.len() == 0 {
        None
    } else if sections[0].title == title {
        Some(sections[0])
    } else {
        section_titled(sections.drop_first(), title)
    }
}

/// The values of an attribute, none if it is missing.
pub open spec fn attr_values(
    attrs: Seq<AttrView>,
    key: Seq<char>,
    param: Option<Seq<char>>,
) -> Seq<Seq<char>>
    decreases attrs.len(),
{
    if attrs.len() == 0 {
        Seq::empty()
    } else if attrs[0].key == key && attrs[0].param == param {
        attrs[0].values
    } else {
        attr_values(attrs.drop_first(), key, param)
    }
}

/// The first text of a list, if there is one.
pub open spec fn first_of(list: Seq<Seq<char>>) -> Option<Seq<char>> {
    if list.len() > 0 {
        Some(list[0])
    } else {
        None
    }
}

/// The first value of an attribute in the first of the languages for which it
/// has one.
pub open spec fn translated(
    attrs: Seq<AttrView>,
    key: Seq<char>,
    languages: Seq<Seq<char>>,
) -> Option<Seq<char>>
    decreases languages.len(),
{
    if languages.len() == 0 {
        None
    } else if attr_values(attrs, key, Some(languages[0])).len() > 0 {
        Some(attr_values(attrs, key, Some(languages[0]))[0])
    } else {
        translated(attrs, key, languages.drop_first())
    }
}

/// The first value of an attribute in the first of the languages for which it
/// has one, or else its first value without a language.
pub open spec fn localized(
    attrs: Seq<AttrView>,
    key: Seq<char>,
    languages: Seq<Seq<char>>,
) -> Option<Seq<char>> {
    match translated(attrs, key, languages) {
        Some(value) => Some(value),
        None => first_of(attr_values(attrs, key, None)),
    }
}

/// An attribute that is in none of the languages has the value that it has
/// without a language.
pub proof fn localized_falls_back(
    attrs: Seq<AttrView>,
    key: Seq<char>,
    languages: Seq<Seq<char>>,
)
    requires
        forall|i: int|
            0 <= i < languages.len() ==> attr_values(
                attrs,
                key,
                Some(#[trigger] languages[i]),
            ).len() == 0,
    ensures
        localized(attrs, key, languages) == first_of(attr_values(attrs, key, None)),
    decreases languages.len(),
{
    if languages.len() > 0 {
        let rest = languages.drop_first();
        assert(attr_values(attrs, key, Some(languages[0])).len() == 0);
        assert forall|i: int| 0 <= i < rest.len() implies attr_values(
            attrs,
            key,
            Some(#[trigger] rest[i]),
        ).len() == 0 by {
            assert(rest[i] == languages[i + 1]);
        }
        localized_falls_back(attrs, key, rest);
    }
}

/// The first language that has a value decides, whatever languages follow.
pub proof fn first_language_decides(
    attrs: Seq<AttrView>,
    key: Seq<char>,
    languages: Seq<Seq<char>>,
    n: int,
)
    requires
        0 <= n < languages.len(),
        attr_values(attrs, key, Some(languages[n])).len() > 0,
        forall|i: int|
            0 <= i < n ==> attr_values(attrs, key, Some(#[trigger] languages[i])).len() == 0,
    ensures
        localized(attrs, key, languages) == Some(attr_values(attrs, key, Some(languages[n]))[0]),
    decreases n,
{
    if n > 0 {
        let rest = languages.drop_first();
        assert(attr_values(attrs, key, Some(languages[0])).len() == 0);
        assert forall|i: int| 0 <= i < n - 1 implies attr_values(
            attrs,
            key,
            Some(#[trigger] rest[i]),
        ).len() == 0 by {
            assert(rest[i] == languages[i + 1]);
        }
        first_language_decides(attrs, key, rest, n - 1);
        assert(translated(attrs, key, rest) is Some) by {
            lemma_translated_some(attrs, key, rest, n - 1);
        }
    }
}

proof fn lemma_translated_some(
    attrs: Seq<AttrView>,
    key: Seq<char>,
    languages: Seq<Seq<char>>,
    n: int,
)
    requires
        0 <= n < languages.len(),
        attr_values(attrs, key, Some(languages[n])).len() > 0,
    ensures
        translated(attrs, key, languages) is Some,
    decreases n,
{
    if n > 0 {
        lemma_translated_some(attrs, key, languages.drop_first(), n - 1);
    }
}

// ---------------------------------------------------------------------------
// Parsing
// ---------------------------------------------------------------------------

/// A file that is no desktop entry file.
#[verifier::external_type_specification]
#[verifier::external_body]
pub struct ExParseError(freedesktop_entry_parser::ParseError);

/// The sections of the desktop entry file with the given bytes, if they are
/// one: what [`freedesktop_entry_parser::Entry`] makes of them.
pub uninterp spec fn entry_parsed(bytes: Seq<u8>) -> Option<Seq<SectionView>>;

/// [`freedesktop_entry_parser::Entry::parse`], and all that the entry holds: its
/// sections and their attributes in order. Of the result it is only claimed
/// that it depends on the bytes alone.
#[verifier::external_body]
fn parse_entry(bytes: &[u8]) -> (r: Result<Entry, freedesktop_entry_parser::ParseError>)
    ensures
        match r {
            Ok(entry) => entry_parsed(bytes@) == Some(entry@),
            Err(_) => entry_parsed(bytes@) is None,
        },
{
    let entry = freedesktop_entry_parser::Entry::parse(bytes)?;
    let sections = entry.sections().map(|(title, section)| Section {
        title: title.clone(),
        attrs: section
            .attrs()
            .map(|(k, v)| Attr { key: k.key.clone(), param: k.param.clone(), values: v.clone() })
            .collect(),
    });
    Ok(Entry { sections: sections.collect() })
}

/// Whether an optional text is the given one.
fn is_param(param: &Option<String>, wanted: Option<&str>) -> (r: bool)
    ensures
        r == (optional_text(*param) == match wanted {
            Some(w) => Some(w@),
            None => None,
        }),
{
    match param {
        Some(p) => match wanted {
            Some(w) => same_text(p.as_str(), w),
            None => false,
        },
        None => wanted.is_none(),
    }
}

impl Section {
    /// The attribute with the given key and parameter.
    fn find(&self, key: &str, param: Option<&str>) -> (r: Option<&Attr>)
        ensures
            ({
                let wanted = match param {
                    Some(p) => Some(p@),
                    None => None,
                };
                attr_values(self@.attrs, key@, wanted) == match r {
                    Some(attr) => texts(attr.values@),
                    None => Seq::empty(),
                }
            }),
    {
        let ghost attrs = self@.attrs;
        let ghost wanted = match param {
            Some(p) => Some(p@),
            None => None,
        };
        let mut i: usize = 0;
        assert(attrs.skip(0) =~= attrs);
        while i < self.attrs.len()
            invariant
                i <= attrs.len(),
                attrs == self@.attrs,
                attrs.len() == self.attrs@.len(),
                wanted == (match param {
                    Some(p) => Some(p@),
                    None => None,
                }),
                attr_values(attrs, key@, wanted) == attr_values(
                    attrs.skip(i as int),
                    key@,
                    wanted,
                ),
            decreases attrs.len() - i,
        {
            let attr = &self.attrs[i];
            assert(attrs.skip(i as int)[0] == attr@);
            if same_text(attr.key.as_str(), key) && is_param(&attr.param, param) {
                return Some(attr);
            }
            assert(attrs.skip(i as int).drop_first() =~= attrs.skip(i + 1));
            i += 1;
        }
        None
    }

    /// All values of the attribute without a parameter.
    pub fn attr(&self, key: &str) -> (r: Vec<String>)
        ensures
            texts(r@) == attr_values(self@.attrs, key@, None),
    {
        match self.find(key, None) {
            Some(attr) => copied(&attr.values),
            None => {
                let r: Vec<String> = Vec::new();
                assert(texts(r@) =~= Seq::empty());
                r
            },
        }
    }

    /// The first value of the attribute with the given key and parameter.
    fn first_value(&self, key: &str, param: Option<&str>) -> (r: Option<&str>)
        ensures
            ({
                let wanted = match param {
                    Some(p) => Some(p@),
                    None => None,
                };
                first_of(attr_values(self@.attrs, key@, wanted)) == match r {
                    Some(value) => Some(value@),
                    None => None,
                }
            }),
    {
        match self.find(key, param) {
            Some(attr) => if attr.values.len() > 0 {
                assert(texts(attr.values@)[0] == attr.values@[0]@);
                Some(attr.values[0].as_str())
            } else {
                None
            },
            None => None,
        }
    }

    /// The first value of the attribute without a parameter.
    pub fn get_first(&self, key: &str) -> (r: Option<&str>)
        ensures
            first_of(attr_values(self@.attrs, key@, None)) == match r {
                Some(value) => Some(value@),
                None => None,
            },
    {
        self.first_value(key, None)
    }

    /// The first value of the attribute in the first of the languages for which
    /// it has one, or else its first value without a language.
    pub fn get_first_with_language(&self, key: &str, languages: &Vec<String>) -> (r: Option<&str>)
        ensures
            localized(self@.attrs, key@, texts(languages@)) == match r {
                Some(value) => Some(value@),
                None => None,
            },
    {
        let ghost attrs = self@.attrs;
        let ghost langs = texts(languages@);
        let mut i: usize = 0;
        assert(langs.skip(0) =~= langs);
        while i < languages.len()
            invariant
                i <= langs.len(),
                attrs == self@.attrs,
                langs == texts(languages@),
                translated(attrs, key@, langs) == translated(attrs, key@, langs.skip(i as int)),
            decreases langs.len() - i,
        {
            assert(langs.skip(i as int)[0] == languages@[i as int]@);
            match self.first_value(key, Some(languages[i].as_str())) {
                Some(value) => return Some(value),
                None => {},
            }
            assert(langs.skip(i as int).drop_first() =~= langs.skip(i + 1));
            i += 1;
        }
        self.first_value(key, None)
    }
}

/// A copy of a list of texts.
pub(crate) fn copied(list: &Vec<String>) -> (r: Vec<String>)
    ensures
        texts(r@) == texts(list@),
{
    let mut r: Vec<String> = Vec::new();
    let mut i: usize = 0;
    while i < list.len()
        invariant
            i <= list@.len(),
            r@.len() == i,
            forall|j: int| 0 <= j < i ==> (#[trigger] r@[j])@ == list@[j]@,
        decreases list@.len() - i,
    {
        r.push(list[i].clone());
        i += 1;
    }
    assert(texts(r@) =~= texts(list@));
    r
}

impl Entry {
    /// Parses the bytes of a desktop entry file.
    pub fn parse(path: &str, bytes: &[u8]) -> (r: Result<Entry, Error>)
        ensures
            match r {
                Ok(entry) => entry_parsed(bytes@) == Some(entry@),
                Err(e) => entry_parsed(bytes@) is None && e@ == ErrorView::BadEntryFile(path@),
            },
    {
        match parse_entry(bytes) {
            Ok(entry) => Ok(entry),
            Err(_) => Err(Error::BadEntryFile(path.to_owned())),
        }
    }

    /// The section of the given title.
    pub fn section(&self, title: &str) -> (r: Option<&Section>)
        ensures
            section_titled(self@, title@) == match r {
                Some(section) => Some(section@),
                None => None,
            },
    {
        let ghost sections = self@;
        let mut i: usize = 0;
        assert(sections.skip(0) =~= sections);
        while i < self.sections.len()
            invariant
                i <= sections.len(),
                sections == self@,
                sections.len() == self.sections@.len(),
                section_titled(sections, title@) == section_titled(
                    sections.skip(i as int),
                    title@,
                ),
            decreases sections.len() - i,
        {
            let section = &self.sections[i];
            assert(sections.skip(i as int)[0] == section@);
            if same_text(section.title.as_str(), title) {
                return Some(section);
            }
            assert(sections.skip(i as int).drop_first() =~= sections.skip(i + 1));
            i += 1;
        }
        None
    }
}

// ---------------------------------------------------------------------------
// What is found in a file
// ---------------------------------------------------------------------------

/// The first section of a title is the one that is found, wherever it stands and
/// whatever follows it.
pub proof fn the_first_section_of_the_title_is_found(
    sections: Seq<SectionView>,
    title: Seq<char>,
    i: int,
)
    requires
        0 <= i < sections.len(),
        sections[i].title == title,
        forall|j: int| 0 <= j < i ==> (#[trigger] sections[j]).title != title,
    ensures
        section_titled(sections, title) == Some(sections[i]),
    decreases i,
{
    if i > 0 {
        let rest = sections.drop_first();
        assert(sections[0].title != title);
        assert forall|j: int| 0 <= j < i - 1 implies (#[trigger] rest[j]).title != title by {
            assert(rest[j] == sections[j + 1]);
        }
        the_first_section_of_the_title_is_found(rest, title, i - 1);
    }
}

/// No section is found exactly if none has the title.
pub proof fn a_section_is_found_if_there_is_one(sections: Seq<SectionView>, title: Seq<char>)
    ensures
        section_titled(sections, title) is Some <==> exists|i: int|
            0 <= i < sections.len() && (#[trigger] sections[i]).title == title,
    decreases sections.len(),
{
    if sections.len() > 0 {
        let rest = sections.drop_first();
        a_section_is_found_if_there_is_one(rest, title);
        if sections[0].title != title {
            if section_titled(rest, title) is Some {
                let i = choose|i: int| 0 <= i < rest.len() && (#[trigger] rest[i]).title == title;
                assert(sections[i + 1].title == title);
            }
            if exists|i: int| 0 <= i < sections.len() && (#[trigger] sections[i]).title == title {
                let i = choose|i: int|
                    0 <= i < sections.len() && (#[trigger] sections[i]).title == title;
                assert(rest[i - 1].title == title);
            }
        }
    }
}

/// The values of an attribute are those of the first with its key and parameter,
/// wherever it stands and whatever follows it.
pub proof fn the_first_attribute_of_the_key_is_found(
    attrs: Seq<AttrView>,
    key: Seq<char>,
    param: Option<Seq<char>>,
    i: int,
)
    requires
        0 <= i < attrs.len(),
        attrs[i].key == key && attrs[i].param == param,
        forall|j: int|
            0 <= j < i ==> (#[trigger] attrs[j]).key != key || attrs[j].param != param,
    ensures
        attr_values(attrs, key, param) == attrs[i].values,
    decreases i,
{
    if i > 0 {
        let rest = attrs.drop_first();
        assert(attrs[0].key != key || attrs[0].param != param);
        assert forall|j: int| 0 <= j < i - 1 implies (#[trigger] rest[j]).key != key || rest[j].param
            != param by {
            assert(rest[j] == attrs[j + 1]);
        }
        the_first_attribute_of_the_key_is_found(rest, key, param, i - 1);
    }
}

/// An attribute that is missing has no values.
pub proof fn a_missing_attribute_has_no_values(
    attrs: Seq<AttrView>,
    key: Seq<char>,
    param: Option<Seq<char>>,
)
    requires
        forall|j: int|
            0 <= j < attrs.len() ==> (#[trigger] attrs[j]).key != key || attrs[j].param != param,
    ensures
        attr_values(attrs, key, param).len() == 0,
    decreases attrs.len(),
{
    if attrs.len() > 0 {
        let rest = attrs.drop_first();
        assert(attrs[0].key != key || attrs[0].param != param);
        assert forall|j: int| 0 <= j < rest.len() implies (#[trigger] rest[j]).key != key || rest[j].param
            != param by {
            assert(rest[j] == attrs[j + 1]);
        }
        a_missing_attribute_has_no_values(rest, key, param);
    }
}

/// Of several values the one in front is taken, and without values there is none.
pub proof fn the_value_in_front_is_taken(value: Seq<char>, others: Seq<Seq<char>>)
    ensures
        first_of(seq![value] + others) == Some(value),
        first_of(Seq::empty()) is None,
{
    assert((seq![value] + others)[0] == value);
}

/// Without languages a value is the one without a language.
pub proof fn without_languages_nothing_is_translated(attrs: Seq<AttrView>, key: Seq<char>)
    ensures
        localized(attrs, key, Seq::empty()) == if attr_values(attrs, key, None).len() > 0 {
            Some(attr_values(attrs, key, None)[0])
        } else {
            None
        },
{
}

} // verus!

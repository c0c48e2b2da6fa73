//! Handlers and lists of handlers.
use crate::error::Error;
use crate::text::{
    distinct_fields, fields_are_the_non_empty_pieces, fields_in_front_come_first, join_texts,
    joined, joining_at_most_one_text, joining_puts_the_separator_between,
    lemma_first_occurrences, lemma_joined_front, lemma_non_empty, lemma_pieces_free,
    lemma_split_on_free, lemma_split_on_prefix, lemma_split_on_single, non_empty,
    split_distinct, split_on, text_without_separator_is_one_field, texts,
};
use std::collections::VecDeque;
use vstd::prelude::*;

verus! {

/// A handler, known by the name of its desktop entry file.
#[derive(Debug, PartialEq, Eq)]
pub struct DesktopHandler {
    name: String,
}

impl View for DesktopHandler {
    type V = Seq<char>;

    closed spec fn view(&self) -> Seq<char> {
        self.name@
    }
}

impl Clone for DesktopHandler {
    fn clone(&self) -> (r: Self)
        ensures
            r@ == self@,
    {
        DesktopHandler { name: self.name.clone() }
    }
}

impl DesktopHandler {
    /// The handler of the given name, whether or not there is such a file.
    pub fn assume_valid(name: String) -> (r: DesktopHandler)
        ensures
            r@ == name@,
    {
        DesktopHandler { name }
    }

    /// The handler of the given name. Every text names one.
    pub fn from_str(name: &str) -> (r: Result<DesktopHandler, Error>)
        ensures
            r matches Ok(h) && h@ == name@,
    {
        Ok(DesktopHandler { name: name.to_owned() })
    }

    /// The name of the desktop entry file.
    pub fn as_str(&self) -> (r: &str)
        ensures
            r@ == self@,
    {
        self.name.as_str()
    }

    /// Whether both are the same handler.
    pub fn same(&self, other: &DesktopHandler) -> (r: bool)
        ensures
            r == (self@ == other@),
    {
        self.name == other.name
    }
}

/// The handlers of one MIME type, the preferred one first.
#[derive(Debug, PartialEq)]
pub struct DesktopList(VecDeque<DesktopHandler>);

impl View for DesktopList {
    type V = Seq<Seq<char>>;

    closed spec fn view(&self) -> Seq<Seq<char>> {
        self.0@.map_values(|h: DesktopHandler| h@)
    }
}

/// The handlers that a text lists between semicolons.
pub open spec fn listed(text: Seq<char>) -> Seq<Seq<char>> {
    distinct_fields(text, ";"@)
}

/// The list as a text: the handlers with semicolons between them and one after
/// the last.
pub open spec fn list_text(list: Seq<Seq<char>>) -> Seq<char> {
    joined(list, ";"@) + ";"@
}

/// The list without the first occurrence of `handler`.
pub open spec fn without(list: Seq<Seq<char>>, handler: Seq<char>) -> Seq<Seq<char>>
    decreases list.len(),
{
    if list.len() == 0 {
        list
    } else if list[0] == handler {
        list.drop_first()
    } else {
        seq![list[0]] + without(list.drop_first(), handler)
    }
}

proof fn lemma_without_at(list: Seq<Seq<char>>, handler: Seq<char>, i: int)
    requires
        0 <= i < list.len(),
        list[i] == handler,
        forall|j: int| 0 <= j < i ==> list[j] != handler,
    ensures
        without(list, handler) == list.remove(i),
    decreases list.len(),
{
    if i == 0 {
        assert(list.drop_first() =~= list.remove(0));
    } else {
        let tail = list.drop_first();
        assert forall|j: int| 0 <= j < i - 1 implies tail[j] != handler by {
            assert(tail[j] == list[j + 1]);
        }
        lemma_without_at(tail, handler, i - 1);
        assert(seq![list[0]] + tail.remove(i - 1) =~= list.remove(i));
    }
}

pub(crate) proof fn lemma_without_absent(list: Seq<Seq<char>>, handler: Seq<char>)
    requires
        !list.contains(handler),
    ensures
        without(list, handler) == list,
    decreases list.len(),
{
    if list.len() > 0 {
        let tail = list.drop_first();
        assert(list.contains(list[0]));
        if tail.contains(handler) {
            let j = choose|j: int| 0 <= j < tail.len() && tail[j] == handler;
            assert(list[j + 1] == handler);
        }
        lemma_without_absent(tail, handler);
        assert(seq![list[0]] + tail =~= list);
    }
}

/// A list that a text can hold: no handler is empty, holds a semicolon or
/// occurs twice.
pub open spec fn is_listable(list: Seq<Seq<char>>) -> bool {
    &&& list.no_duplicates()
    &&& forall|i: int|
        0 <= i < list.len() ==> (#[trigger] list[i]).len() > 0 && !list[i].contains(';')
}

/// What is read from a text can be written again.
pub proof fn listed_is_listable(text: Seq<char>)
    ensures
        is_listable(listed(text)),
{
    reveal_strlit(";");
    assert(";"@ =~= seq![';']);
    let pieces = split_on(text, ";"@);
    lemma_split_on_free(text, ';');
    lemma_non_empty(pieces);
    lemma_first_occurrences(non_empty(pieces));
    let list = listed(text);
    assert forall|i: int| 0 <= i < list.len() implies (#[trigger] list[i]).len() > 0
        && !list[i].contains(';') by {
        assert(list.contains(list[i]));
        assert(non_empty(pieces).contains(list[i]));
        assert(pieces.contains(list[i]));
        let j = choose|j: int| 0 <= j < pieces.len() && pieces[j] == list[i];
        assert(!pieces[j].contains(';'));
    }
}

/// Reading a list brings in no characters.
pub(crate) proof fn lemma_listed_free(text: Seq<char>, c: char)
    requires
        !text.contains(c),
    ensures
        forall|i: int| 0 <= i < listed(text).len() ==> !(#[trigger] listed(text)[i]).contains(c),
{
    reveal_strlit(";");
    let pieces = split_on(text, ";"@);
    lemma_pieces_free(text, ";"@, c);
    lemma_non_empty(pieces);
    lemma_first_occurrences(non_empty(pieces));
    let list = listed(text);
    assert forall|i: int| 0 <= i < list.len() implies !(#[trigger] list[i]).contains(c) by {
        assert(list.contains(list[i]));
        assert(non_empty(pieces).contains(list[i]));
        assert(pieces.contains(list[i]));
        let j = choose|j: int| 0 <= j < pieces.len() && pieces[j] == list[i];
        assert(!pieces[j].contains(c));
    }
}

proof fn lemma_split_list_text(list: Seq<Seq<char>>)
    requires
        list.len() > 0,
        forall|i: int| 0 <= i < list.len() ==> !(#[trigger] list[i]).contains(';'),
    ensures
        split_on(list_text(list), seq![';']) == list.push(Seq::empty()),
    decreases list.len(),
{
    reveal_strlit(";");
    assert(";"@ =~= seq![';']);
    let empty = Seq::<char>::empty();
    let tail = list.drop_first();
    if list.len() == 1 {
        assert(list_text(list) =~= list[0] + seq![';'] + empty);
        lemma_split_on_prefix(list[0], ';', empty);
        lemma_split_on_single(empty, ';');
        assert(seq![list[0]] + seq![empty] =~= list.push(empty));
    } else {
        lemma_joined_front(list, ";"@);
        assert(list_text(list) =~= list[0] + seq![';'] + list_text(tail));
        lemma_split_on_prefix(list[0], ';', list_text(tail));
        assert forall|i: int| 0 <= i < tail.len() implies !(#[trigger] tail[i]).contains(';') by {
            assert(tail[i] == list[i + 1]);
        }
        lemma_split_list_text(tail);
        assert(seq![list[0]] + tail.push(empty) =~= list.push(empty));
    }
}

/// Reading the text of a list gives back the list, unless a handler is empty,
/// holds a semicolon or occurs twice.
pub proof fn list_text_reads_back(list: Seq<Seq<char>>)
    requires
        is_listable(list),
    ensures
        listed(list_text(list)) == list,
{
    reveal_strlit(";");
    assert(";"@ =~= seq![';']);
    let empty = Seq::<char>::empty();
    let pieces = split_on(list_text(list), ";"@);
    if list.len() == 0 {
        assert(list_text(list) =~= empty + seq![';'] + empty);
        lemma_split_on_prefix(empty, ';', empty);
        lemma_split_on_single(empty, ';');
        assert(pieces =~= list.push(empty).push(empty));
    } else {
        lemma_split_list_text(list);
    }
    reveal(Seq::filter);
    lemma_non_empty(list);
    assert(list.push(empty).drop_last() =~= list);
    assert(list.push(empty).push(empty).drop_last() =~= list.push(empty));
    assert(non_empty(list.push(empty)) == list);
    assert(non_empty(pieces) == list);
    lemma_first_occurrences(list);
}

/// Writing what was read and reading it again changes nothing.
pub proof fn reading_is_stable(text: Seq<char>)
    ensures
        listed(list_text(listed(text))) == listed(text),
{
    listed_is_listable(text);
    list_text_reads_back(listed(text));
}

/// Taking out a handler that was just added gives back the list, if the handler
/// was not in it before.
pub proof fn removing_undoes_adding(list: Seq<Seq<char>>, handler: Seq<char>)
    requires
        !list.contains(handler),
    ensures
        without(list.push(handler), handler) == list,
{
    let longer = list.push(handler);
    assert forall|j: int| 0 <= j < list.len() implies longer[j] != handler by {
        assert(list.contains(list[j]));
    }
    lemma_without_at(longer, handler, list.len() as int);
    assert(longer.remove(list.len() as int) =~= list);
}

/// Adding a handler again that was just taken out gives back the list, if the
/// handler stood at the end and nowhere else.
pub proof fn adding_undoes_removing(list: Seq<Seq<char>>, handler: Seq<char>)
    requires
        list.len() > 0,
        list.last() == handler,
        !list.drop_last().contains(handler),
    ensures
        without(list, handler).push(handler) == list,
{
    removing_undoes_adding(list.drop_last(), handler);
    assert(list.drop_last().push(handler) =~= list);
}

impl Default for DesktopList {
    fn default() -> (r: Self)
        ensures
            r@ == Seq::<Seq<char>>::empty(),
    {
        DesktopList::new()
    }
}

impl DesktopList {
    /// The list without handlers.
    pub fn new() -> (r: DesktopList)
        ensures
            r@ == Seq::<Seq<char>>::empty(),
    {
        let r = DesktopList(VecDeque::new());
        assert(r@ =~= Seq::empty());
        r
    }

    /// The list of one handler.
    pub fn single(handler: DesktopHandler) -> (r: DesktopList)
        ensures
            r@ == seq![handler@],
    {
        let mut r = DesktopList::new();
        r.push_back(handler);
        assert(r@ =~= seq![handler@]);
        r
    }

    /// Reads the handlers that stand between semicolons. Empty places and
    /// repetitions are passed over. Every text is a list.
    pub fn from_str(text: &str) -> (r: Result<DesktopList, Error>)
        ensures
            r matches Ok(list) && list@ == listed(text@),
    {
        let names = split_distinct(text, ";");
        let mut list = DesktopList::new();
        let mut i: usize = 0;
        assert(texts(names@).take(0) =~= Seq::empty());
        while i < names.len()
            invariant
                i <= names@.len(),
                list@ == texts(names@).take(i as int),
            decreases names@.len() - i,
        {
            let handler = DesktopHandler::from_str(names[i].as_str())?;
            list.push_back(handler);
            i += 1;
            assert(list@ =~= texts(names@).take(i as int));
        }
        assert(texts(names@).take(i as int) =~= texts(names@));
        Ok(list)
    }

    /// The list as it is written in `mimeapps.list`.
    pub fn to_text(&self) -> (r: String)
        ensures
            r@ == list_text(self@),
    {
        let mut names: Vec<String> = Vec::new();
        let mut i: usize = 0;
        while i < self.0.len()
            invariant
                i <= self.0@.len(),
                texts(names@) == self@.take(i as int),
            decreases self.0@.len() - i,
        {
            let name = self.0[i].as_str().to_owned();
            let ghost before = texts(names@);
            names.push(name);
            assert(texts(names@) =~= before.push(self@[i as int]));
            i += 1;
            assert(texts(names@) =~= self@.take(i as int));
        }
        assert(self@.take(i as int) =~= self@);
        let mut text = join_texts(&names, ";");
        text.append(";");
        text
    }

    pub fn len(&self) -> (r: usize)
        ensures
            r == self@.len(),
    {
        self.0.len()
    }

    pub fn is_empty(&self) -> (r: bool)
        ensures
            r == (self@.len() == 0),
    {
        self.0.len() == 0
    }

    /// The handler at position `i`.
    pub fn at(&self, i: usize) -> (r: &DesktopHandler)
        requires
            i < self@.len(),
        ensures
            r@ == self@[i as int],
    {
        &self.0[i]
    }

    /// Takes out the first occurrence of `handler`, and says whether there was
    /// one.
    pub fn remove_first(&mut self, handler: &DesktopHandler) -> (r: bool)
        ensures
            final(self)@ == without(old(self)@, handler@),
            r == old(self)@.contains(handler@),
    {
        let ghost before = self@;
        let mut i: usize = 0;
        while i < self.0.len()
            invariant
                i <= self.0@.len(),
                self@ == before,
                before == old(self)@,
                forall|j: int| 0 <= j < i ==> before[j] != handler@,
            decreases self.0@.len() - i,
        {
            if self.0[i].same(handler) {
                let _ = self.0.remove(i);
                proof {
                    assert(before[i as int] == handler@);
                    lemma_without_at(before, handler@, i as int);
                    assert(self@ =~= before.remove(i as int));
                }
                return true;
            }
            i += 1;
        }
        proof {
            lemma_without_absent(before, handler@);
        }
        false
    }

    /// Adds a handler at the end.
    pub fn push_back(&mut self, handler: DesktopHandler)
        ensures
            final(self)@ == old(self)@.push(handler@),
    {
        let ghost before = self@;
        self.0.push_back(handler);
        assert(self@ =~= before.push(handler@));
    }
}

impl Clone for DesktopList {
    fn clone(&self) -> (r: Self)
        ensures
            r@ == self@,
    {
        let mut r = DesktopList::new();
        let mut i: usize = 0;
        assert(self@.take(0) =~= Seq::empty());
        while i < self.0.len()
            invariant
                i <= self.0@.len(),
                r@ == self@.take(i as int),
            decreases self.0@.len() - i,
        {
            r.push_back(self.0[i].clone());
            i += 1;
            assert(r@ =~= self@.take(i as int));
        }
        assert(self@.take(i as int) =~= self@);
        r
    }
}

/// What a text lists are its pieces between semicolons that are not empty, each
/// of them once.
pub proof fn a_text_lists_its_pieces(text: Seq<char>, handler: Seq<char>)
    ensures
        listed(text).no_duplicates(),
        listed(text).contains(handler) <==> handler.len() > 0 && split_on(text, seq![';']).contains(
            handler,
        ),
{
    reveal_strlit(";");
    assert(";"@ =~= seq![';']);
    fields_are_the_non_empty_pieces(text, ";"@, handler);
}

/// What stands in front of a semicolon is listed first.
pub proof fn what_stands_in_front_is_listed_first(front: Seq<char>, back: Seq<char>)
    ensures
        listed(front).len() <= listed(front + seq![';'] + back).len(),
        listed(front + seq![';'] + back).take(listed(front).len() as int) == listed(front),
{
    reveal_strlit(";");
    assert(";"@ =~= seq![';']);
    fields_in_front_come_first(front, ';', back);
}

/// A text without semicolons lists itself, with or without a semicolon after it.
pub proof fn one_handler_is_listed(handler: Seq<char>)
    requires
        handler.len() > 0,
        !handler.contains(';'),
    ensures
        listed(handler) == seq![handler],
        listed(handler + seq![';']) == seq![handler],
{
    reveal_strlit(";");
    let sep = ";"@;
    assert(sep =~= seq![';']);
    assert forall|k: int| 0 <= k && k + sep.len() <= handler.len() implies #[trigger] handler.subrange(
        k,
        k + sep.len(),
    ) != sep by {
        assert(handler.subrange(k, k + sep.len())[0] == handler[k]);
    }
    text_without_separator_is_one_field(handler, sep);
    let list = seq![handler];
    assert(list[0] == handler);
    assert(list_text(list) =~= handler + seq![';']);
    list_text_reads_back(list);
}

/// A list is written as its handlers, each followed by a semicolon; only the list
/// without handlers is written as a semicolon.
pub proof fn every_handler_is_written_with_a_semicolon(
    front: Seq<Seq<char>>,
    handler: Seq<char>,
)
    ensures
        list_text(Seq::empty()) == seq![';'],
        list_text(seq![handler]) == handler + seq![';'],
        front.len() > 0 ==> list_text(front.push(handler)) == list_text(front) + handler + seq![';'],
{
    reveal_strlit(";");
    assert(";"@ =~= seq![';']);
    assert(list_text(Seq::empty()) =~= seq![';']);
    joining_at_most_one_text(handler, ";"@);
    if front.len() > 0 {
        assert(front.push(handler) =~= front + seq![handler]);
        joining_puts_the_separator_between(front, seq![handler], ";"@);
        assert(list_text(front.push(handler)) =~= list_text(front) + handler + seq![';']);
    }
}

/// Taking out a handler takes out the first of its occurrences, and nothing where
/// it does not occur.
pub proof fn taking_out_takes_the_first(list: Seq<Seq<char>>, handler: Seq<char>, i: int)
    ensures
        !list.contains(handler) ==> without(list, handler) == list,
        0 <= i < list.len() && list[i] == handler && (forall|j: int|
            0 <= j < i ==> #[trigger] list[j] != handler) ==> without(list, handler) == list.remove(
            i,
        ),
{
    if !list.contains(handler) {
        lemma_without_absent(list, handler);
    }
    if 0 <= i < list.len() && list[i] == handler && (forall|j: int|
        0 <= j < i ==> #[trigger] list[j] != handler) {
        lemma_without_at(list, handler, i);
    }
}

} // verus!

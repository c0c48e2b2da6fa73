//! The user's `mimeapps.list`: which handlers open which MIME type.
use crate::desktop_list::{without, DesktopHandler, DesktopList};
use crate::error::{Error, ErrorView};
use crate::media_type::{mime_parsed, Mime};
use crate::mime_map::{
    handlers_of, map_of, without_handler, without_matches, Associations, MimeMap,
};
use crate::text::texts;
use crate::wildcard::{matches_wildcard, wild_matches};
use vstd::prelude::*;
use vstd::utf8::encode_utf8;

verus! {

/// The user's `mimeapps.list`.
#[derive(Debug)]
pub struct MimeApps {
    /// Handlers that can open a MIME type.
    pub added_associations: MimeMap,
    /// Handlers that open a MIME type by default.
    pub default_apps: MimeMap,
}

/// The contents of [`MimeApps`].
pub struct MimeAppsView {
    pub added_associations: Associations,
    pub default_apps: Associations,
}

impl View for MimeApps {
    type V = MimeAppsView;

    open spec fn view(&self) -> MimeAppsView {
        MimeAppsView {
            added_associations: self.added_associations@,
            default_apps: self.default_apps@,
        }
    }
}

/// The MIME types of a list that `pattern` covers.
pub open spec fn covered(mime_types: Seq<Seq<char>>, pattern: Seq<char>) -> Seq<Seq<char>> {
    mime_types.filter(|t: Seq<char>| wild_matches(pattern, t))
}

/// Whether every text of a list spells a MIME type.
pub open spec fn all_mimes(list: Seq<Seq<char>>) -> bool {
    forall|i: int| 0 <= i < list.len() ==> mime_parsed(#[trigger] list[i]) is Some
}

/// The part of a list that comes before the first text that spells no MIME
/// type.
pub open spec fn before_first_bad(list: Seq<Seq<char>>) -> Seq<Seq<char>>
    decreases list.len(),
{
    if list.len() == 0 || mime_parsed(list[0]) is None {
        Seq::empty()
    } else {
        seq![list[0]] + before_first_bad(list.drop_first())
    }
}

pub(crate) proof fn lemma_before_first_bad(list: Seq<Seq<char>>, n: int)
    requires
        0 <= n <= list.len(),
        all_mimes(list.take(n)),
        n < list.len() ==> mime_parsed(list[n]) is None,
    ensures
        before_first_bad(list) == list.take(n),
    decreases list.len(),
{
    if n == 0 {
        assert(list.take(n) =~= Seq::empty());
    } else {
        assert(mime_parsed(list.take(n)[0]) is Some);
        let tail = list.drop_first();
        assert forall|i: int| 0 <= i < n - 1 implies mime_parsed(
            #[trigger] tail.take(n - 1)[i],
        ) is Some by {
            assert(tail.take(n - 1)[i] == list.take(n)[i + 1]);
        }
        lemma_before_first_bad(tail, n - 1);
        assert(list.take(n) =~= seq![list[0]] + tail.take(n - 1));
    }
}

/// The canonical spellings of a list of MIME types.
pub open spec fn spellings(list: Seq<Seq<char>>) -> Seq<Seq<char>> {
    list.map_values(|t: Seq<char>| mime_parsed(t)->0)
}

/// The associations after `handler` was added to each of the MIME types in turn.
pub open spec fn with_added(
    map: Associations,
    mimes: Seq<Seq<char>>,
    handler: Seq<char>,
) -> Associations
    decreases mimes.len(),
{
    if mimes.len() == 0 {
        map
    } else {
        let before = with_added(map, mimes.drop_last(), handler);
        before.insert(mimes.last(), handlers_of(before, mimes.last()).push(handler))
    }
}

/// The associations after `handler` was made the only one of each of the MIME
/// types.
pub open spec fn with_set(
    map: Associations,
    mimes: Seq<Seq<char>>,
    handler: Seq<char>,
) -> Associations
    decreases mimes.len(),
{
    if mimes.len() == 0 {
        map
    } else {
        with_set(map, mimes.drop_last(), handler).insert(mimes.last(), seq![handler])
    }
}

/// The associations after one was taken out: that for `mime` itself if there is
/// one, otherwise all that `mime` covers as a wildcard.
pub open spec fn with_unset(map: Associations, mime: Seq<char>) -> Associations {
    if map.contains_key(mime) {
        map.remove(mime)
    } else {
        without_matches(map, mime)
    }
}

/// The associations after `handler` was taken from those of `mime`: from `mime`
/// itself if it stands there, otherwise from all that `mime` covers as a
/// wildcard. Either way there is an association for `mime` afterwards.
pub open spec fn with_removed(
    map: Associations,
    mime: Seq<char>,
    handler: Seq<char>,
) -> Associations {
    let own = handlers_of(map, mime);
    if own.contains(handler) {
        map.insert(mime, without(own, handler))
    } else {
        without_handler(map.insert(mime, own), mime, handler)
    }
}

/// The length of a text in bytes.
pub open spec fn byte_len(text: Seq<char>) -> nat {
    encode_utf8(text).len()
}

/// The association at position `i` is the one whose wildcard fits `mime` best:
/// the longest that covers it, and the first among those of the same length.
pub open spec fn is_best_match(
    pairs: Seq<(Seq<char>, Seq<Seq<char>>)>,
    mime: Seq<char>,
    i: int,
) -> bool {
    &&& 0 <= i < pairs.len()
    &&& wild_matches(pairs[i].0, mime)
    &&& forall|j: int|
        0 <= j < pairs.len() && wild_matches((#[trigger] pairs[j]).0, mime) ==> {
            ||| byte_len(pairs[j].0) < byte_len(pairs[i].0)
            ||| byte_len(pairs[j].0) == byte_len(pairs[i].0) && i <= j
        }
}

/// The handlers of the association whose wildcard fits `mime` best.
pub open spec fn from_wildcard(
    pairs: Seq<(Seq<char>, Seq<Seq<char>>)>,
    mime: Seq<char>,
) -> Option<Seq<Seq<char>>> {
    if exists|i: int| is_best_match(pairs, mime, i) {
        Some(pairs[choose|i: int| is_best_match(pairs, mime, i)].1)
    } else {
        None
    }
}

/// The handlers that open `mime`: those associated with it, or else those of the
/// wildcard that fits it best.
pub open spec fn configured(
    pairs: Seq<(Seq<char>, Seq<Seq<char>>)>,
    mime: Seq<char>,
) -> Option<Seq<Seq<char>>> {
    if map_of(pairs).contains_key(mime) {
        Some(map_of(pairs)[mime])
    } else {
        from_wildcard(pairs, mime)
    }
}

/// At most one association fits best.
pub proof fn best_match_is_unique(
    pairs: Seq<(Seq<char>, Seq<Seq<char>>)>,
    mime: Seq<char>,
    i: int,
    j: int,
)
    requires
        is_best_match(pairs, mime, i),
        is_best_match(pairs, mime, j),
    ensures
        i == j,
{
    assert(wild_matches(pairs[i].0, mime));
    assert(wild_matches(pairs[j].0, mime));
}

proof fn lemma_covered_prefix(mime_types: Seq<Seq<char>>, pattern: Seq<char>, i: int)
    requires
        0 <= i < mime_types.len(),
    ensures
        covered(mime_types.take(i + 1), pattern) == if wild_matches(pattern, mime_types[i]) {
            covered(mime_types.take(i), pattern).push(mime_types[i])
        } else {
            covered(mime_types.take(i), pattern)
        },
        covered(mime_types.take(i), pattern).len() <= covered(mime_types, pattern).len(),
        wild_matches(pattern, mime_types[i]) ==> covered(mime_types.take(i), pattern).len()
            < covered(mime_types, pattern).len() && covered(mime_types, pattern)[covered(
            mime_types.take(i),
            pattern,
        ).len() as int] == mime_types[i],
        covered(mime_types, pattern).take(covered(mime_types.take(i), pattern).len() as int)
            == covered(mime_types.take(i), pattern),
{
    let pred = |t: Seq<char>| wild_matches(pattern, t);
    reveal(Seq::filter);
    assert(mime_types.take(i + 1).drop_last() =~= mime_types.take(i));
    let done = covered(mime_types.take(i + 1), pattern);
    let rest = covered(mime_types.skip(i + 1), pattern);
    Seq::filter_distributes_over_add(mime_types.take(i + 1), mime_types.skip(i + 1), pred);
    assert(mime_types.take(i + 1) + mime_types.skip(i + 1) =~= mime_types);
    assert(covered(mime_types, pattern) == done + rest);
    assert((done + rest).take(covered(mime_types.take(i), pattern).len() as int) =~= covered(
        mime_types.take(i),
        pattern,
    ));
}

impl MimeApps {
    /// Both association lists are in order.
    pub open spec fn wf(&self) -> bool {
        self.added_associations.wf() && self.default_apps.wf()
    }

    /// Add a handler to an existing default application association.
    ///
    /// With `expand_wildcards` the handler is added to every MIME type of
    /// `mime_types` that `mime` covers, up to the first that is no MIME type.
    pub fn add_handler(
        &mut self,
        mime: &Mime,
        handler: &DesktopHandler,
        expand_wildcards: bool,
        mime_types: &Vec<String>,
    ) -> (r: Result<(), Error>)
        requires
            old(self).wf(),
        ensures
            final(self).wf(),
            final(self).added_associations == old(self).added_associations,
            !expand_wildcards ==> r is Ok && final(self)@.default_apps == with_added(
                old(self)@.default_apps,
                seq![mime@],
                handler@,
            ),
            expand_wildcards ==> ({
                let list = covered(texts(mime_types@), mime@);
                let done = before_first_bad(list);
                &&& final(self)@.default_apps == with_added(
                    old(self)@.default_apps,
                    spellings(done),
                    handler@,
                )
                &&& match r {
                    Ok(_) => all_mimes(list),
                    Err(e) => done.len() < list.len() && e@ == ErrorView::BadMime(
                        list[done.len() as int],
                    ),
                }
            }),
    {
        if !expand_wildcards {
            self.default_apps.push_handler(mime.clone(), handler.clone());
            proof {
                assert(seq![mime@].drop_last() =~= Seq::empty());
                reveal_with_fuel(with_added, 2);
            }
            return Ok(());
        }
        let ghost types = texts(mime_types@);
        let ghost list = covered(types, mime@);
        let mut i: usize = 0;
        proof {
            reveal(Seq::filter);
            assert(spellings(covered(types.take(0), mime@)) =~= Seq::empty());
        }
        while i < mime_types.len()
            invariant
                i <= mime_types@.len(),
                types == texts(mime_types@),
                list == covered(types, mime@),
                expand_wildcards,
                self.wf(),
                self.added_associations == old(self).added_associations,
                all_mimes(covered(types.take(i as int), mime@)),
                self@.default_apps == with_added(
                    old(self)@.default_apps,
                    spellings(covered(types.take(i as int), mime@)),
                    handler@,
                ),
            decreases mime_types@.len() - i,
        {
            let ghost done = covered(types.take(i as int), mime@);
            let ghost n = done.len() as int;
            assert(types[i as int] == mime_types@[i as int]@);
            proof {
                lemma_covered_prefix(types, mime@, i as int);
            }
            if matches_wildcard(mime.as_str(), mime_types[i].as_str()) {
                match Mime::from_str(mime_types[i].as_str()) {
                    Ok(m) => {
                        proof {
                            let next = done.push(types[i as int]);
                            assert(spellings(next).drop_last() =~= spellings(done));
                            assert(spellings(next).last() == m@);
                        }
                        self.default_apps.push_handler(m, handler.clone());
                    },
                    Err(e) => {
                        proof {
                            lemma_before_first_bad(list, n);
                        }
                        return Err(e);
                    },
                }
            }
            i += 1;
        }
        proof {
            assert(types.take(i as int) =~= types);
            assert(list.take(list.len() as int) =~= list);
            lemma_before_first_bad(list, list.len() as int);
        }
        Ok(())
    }

    /// Set a default application association, overwriting any existing
    /// association for the same MIME type.
    ///
    /// With `expand_wildcards` the handler is set for every MIME type of
    /// `mime_types` that `mime` covers, up to the first that is no MIME type.
    pub fn set_handler(
        &mut self,
        mime: &Mime,
        handler: &DesktopHandler,
        expand_wildcards: bool,
        mime_types: &Vec<String>,
    ) -> (r: Result<(), Error>)
        requires
            old(self).wf(),
        ensures
            final(self).wf(),
            final(self).added_associations == old(self).added_associations,
            !expand_wildcards ==> r is Ok && final(self)@.default_apps == with_set(
                old(self)@.default_apps,
                seq![mime@],
                handler@,
            ),
            expand_wildcards ==> ({
                let list = covered(texts(mime_types@), mime@);
                let done = before_first_bad(list);
                &&& final(self)@.default_apps == with_set(
                    old(self)@.default_apps,
                    spellings(done),
                    handler@,
                )
                &&& match r {
                    Ok(_) => all_mimes(list),
                    Err(e) => done.len() < list.len() && e@ == ErrorView::BadMime(
                        list[done.len() as int],
                    ),
                }
            }),
    {
        if !expand_wildcards {
            self.default_apps.insert(mime.clone(), DesktopList::single(handler.clone()));
            proof {
                assert(seq![mime@].drop_last() =~= Seq::empty());
                reveal_with_fuel(with_set, 2);
            }
            return Ok(());
        }
        let ghost types = texts(mime_types@);
        let ghost list = covered(types, mime@);
        let mut i: usize = 0;
        proof {
            reveal(Seq::filter);
            assert(spellings(covered(types.take(0), mime@)) =~= Seq::empty());
        }
        while i < mime_types.len()
            invariant
                i <= mime_types@.len(),
                types == texts(mime_types@),
                list == covered(types, mime@),
                expand_wildcards,
                self.wf(),
                self.added_associations == old(self).added_associations,
                all_mimes(covered(types.take(i as int), mime@)),
                self@.default_apps == with_set(
                    old(self)@.default_apps,
                    spellings(covered(types.take(i as int), mime@)),
                    handler@,
                ),
            decreases mime_types@.len() - i,
        {
            let ghost done = covered(types.take(i as int), mime@);
            let ghost n = done.len() as int;
            assert(types[i as int] == mime_types@[i as int]@);
            proof {
                lemma_covered_prefix(types, mime@, i as int);
            }
            if matches_wildcard(mime.as_str(), mime_types[i].as_str()) {
                match Mime::from_str(mime_types[i].as_str()) {
                    Ok(m) => {
                        proof {
                            let next = done.push(types[i as int]);
                            assert(spellings(next).drop_last() =~= spellings(done));
                            assert(spellings(next).last() == m@);
                        }
                        self.default_apps.insert(m, DesktopList::single(handler.clone()));
                    },
                    Err(e) => {
                        proof {
                            lemma_before_first_bad(list, n);
                        }
                        return Err(e);
                    },
                }
            }
            i += 1;
        }
        proof {
            assert(types.take(i as int) =~= types);
            assert(list.take(list.len() as int) =~= list);
            lemma_before_first_bad(list, list.len() as int);
        }
        Ok(())
    }

    /// Entirely remove a given MIME type's default application association. If
    /// there is none, remove all that it covers as a wildcard.
    pub fn unset_handler(&mut self, mime: &Mime) -> (r: Option<()>)
        requires
            old(self).wf(),
        ensures
            final(self).wf(),
            final(self).added_associations == old(self).added_associations,
            final(self)@.default_apps == with_unset(old(self)@.default_apps, mime@),
            r is Some,
    {
        if !self.default_apps.remove(mime) {
            self.default_apps.remove_matching(mime.as_str());
            assert(old(self)@.default_apps.remove(mime@) =~= old(self)@.default_apps);
        }
        Some(())
    }

    /// Remove a given handler from a given MIME type's default file association.
    /// If it does not stand there, remove it from all associations that the MIME
    /// type covers as a wildcard.
    pub fn remove_handler(&mut self, mime: &Mime, handler: &DesktopHandler) -> (r: Option<()>)
        requires
            old(self).wf(),
        ensures
            final(self).wf(),
            final(self).added_associations == old(self).added_associations,
            final(self)@.default_apps == with_removed(old(self)@.default_apps, mime@, handler@),
            r is Some,
    {
        let mut own = match self.default_apps.get(mime) {
            Some(list) => list.clone(),
            None => DesktopList::new(),
        };
        let found = own.remove_first(handler);
        self.default_apps.insert(mime.clone(), own);
        if !found {
            proof {
                crate::desktop_list::lemma_without_absent(
                    handlers_of(old(self)@.default_apps, mime@),
                    handler@,
                );
            }
            self.default_apps.remove_handler_matching(mime.as_str(), handler);
        }
        Some(())
    }

    /// Get a list of handlers associated with a wildcard MIME type.
    pub fn get_from_wildcard(&self, mime: &Mime) -> (r: Option<&DesktopList>)
        ensures
            match r {
                Some(list) => from_wildcard(self.default_apps.pairs(), mime@) == Some(list@),
                None => from_wildcard(self.default_apps.pairs(), mime@) is None,
            },
    {
        let ghost pairs = self.default_apps.pairs();
        let mut best: Option<usize> = None;
        let mut best_len: usize = 0;
        let mut i: usize = 0;
        while i < self.default_apps.len()
            invariant
                i <= pairs.len(),
                pairs == self.default_apps.pairs(),
                match best {
                    Some(b) => b < i && best_len == byte_len(pairs[b as int].0) && is_best_match(
                        pairs.take(i as int),
                        mime@,
                        b as int,
                    ),
                    None => forall|j: int|
                        0 <= j < i ==> !wild_matches((#[trigger] pairs[j]).0, mime@),
                },
            decreases pairs.len() - i,
        {
            let pattern = self.default_apps.key_at(i).as_str();
            let ghost next = pairs.take(i + 1);
            if matches_wildcard(pattern, mime.as_str()) {
                let len = pattern.as_bytes().len();
                let better = match best {
                    Some(_) => len > best_len,
                    None => true,
                };
                if better {
                    proof {
                        assert forall|j: int|
                            0 <= j < next.len() && wild_matches(
                                (#[trigger] next[j]).0,
                                mime@,
                            ) implies byte_len(next[j].0) < byte_len(next[i as int].0) || byte_len(
                            next[j].0,
                        ) == byte_len(next[i as int].0) && i <= j by {
                            if j < i {
                                assert(pairs.take(i as int)[j] == pairs[j]);
                            }
                        }
                        assert(is_best_match(next, mime@, i as int));
                    }
                    best = Some(i);
                    best_len = len;
                }
            }
            proof {
                if let Some(b) = best {
                    if b < i {
                        assert forall|j: int|
                            0 <= j < next.len() && wild_matches(
                                (#[trigger] next[j]).0,
                                mime@,
                            ) implies byte_len(next[j].0) < byte_len(next[b as int].0) || byte_len(
                            next[j].0,
                        ) == byte_len(next[b as int].0) && b <= j by {
                            if j < i {
                                assert(pairs.take(i as int)[j] == pairs[j]);
                            }
                        }
                        assert(is_best_match(next, mime@, b as int));
                    }
                }
            }
            i += 1;
        }
        assert(pairs.take(i as int) =~= pairs);
        match best {
            Some(b) => {
                proof {
                    let c = choose|c: int| is_best_match(pairs, mime@, c);
                    best_match_is_unique(pairs, mime@, b as int, c);
                }
                Some(self.default_apps.handlers_at(b))
            },
            None => {
                proof {
                    assert forall|c: int| !is_best_match(pairs, mime@, c) by {
                        if is_best_match(pairs, mime@, c) {
                            assert(wild_matches(pairs[c].0, mime@));
                        }
                    }
                }
                None
            },
        }
    }

    /// The handlers that open `mime`: an exact match first, then the best
    /// wildcard.
    pub fn configured_handlers(&self, mime: &Mime) -> (r: Option<&DesktopList>)
        requires
            self.wf(),
        ensures
            match r {
                Some(list) => configured(self.default_apps.pairs(), mime@) == Some(list@),
                None => configured(self.default_apps.pairs(), mime@) is None,
            },
    {
        match self.default_apps.get(mime) {
            Some(list) => Some(list),
            None => self.get_from_wildcard(mime),
        }
    }
}

impl Clone for MimeApps {
    fn clone(&self) -> (r: Self)
        ensures
            r.added_associations.pairs() == self.added_associations.pairs(),
            r.default_apps.pairs() == self.default_apps.pairs(),
    {
        MimeApps {
            added_associations: self.added_associations.clone(),
            default_apps: self.default_apps.clone(),
        }
    }
}

impl Default for MimeApps {
    fn default() -> (r: Self)
        ensures
            r.wf(),
            r@.added_associations == Associations::empty(),
            r@.default_apps == Associations::empty(),
    {
        MimeApps { added_associations: MimeMap::new(), default_apps: MimeMap::new() }
    }
}

} // verus!

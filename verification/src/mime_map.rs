//! Associations of MIME types with handlers, ordered by MIME type.
use crate::desktop_list::{without, DesktopHandler, DesktopList};
use crate::media_type::Mime;
use crate::text::{
    lemma_text_lt_irreflexive, lemma_text_lt_total, lemma_text_lt_transitive, same_text,
    text_before, text_lt,
};
use crate::wildcard::{matches_wildcard, wild_matches};
use vstd::prelude::*;

verus! {

/// A MIME type with its handlers.
#[derive(Debug)]
pub struct Association {
    mime: Mime,
    handlers: DesktopList,
}

impl View for Association {
    type V = (Seq<char>, Seq<Seq<char>>);

    closed spec fn view(&self) -> (Seq<char>, Seq<Seq<char>>) {
        (self.mime@, self.handlers@)
    }
}

/// What a list of MIME types with their handlers holds.
pub type Associations = Map<Seq<char>, Seq<Seq<char>>>;

/// The MIME types are in strictly ascending order.
pub open spec fn is_ordered(pairs: Seq<(Seq<char>, Seq<Seq<char>>)>) -> bool {
    forall|i: int, j: int|
        0 <= i < j < pairs.len() ==> text_lt(#[trigger] pairs[i].0, #[trigger] pairs[j].0)
}

/// Whether `key` is the MIME type of one of the pairs.
pub open spec fn has_key(pairs: Seq<(Seq<char>, Seq<Seq<char>>)>, key: Seq<char>) -> bool {
    exists|i: int| 0 <= i < pairs.len() && #[trigger] pairs[i].0 == key
}

/// The position of `key` among the pairs.
pub open spec fn index_of_key(pairs: Seq<(Seq<char>, Seq<Seq<char>>)>, key: Seq<char>) -> int {
    choose|i: int| 0 <= i < pairs.len() && #[trigger] pairs[i].0 == key
}

/// The handlers by MIME type.
pub open spec fn map_of(pairs: Seq<(Seq<char>, Seq<Seq<char>>)>) -> Associations {
    Map::new(
        |key: Seq<char>| has_key(pairs, key),
        |key: Seq<char>| pairs[index_of_key(pairs, key)].1,
    )
}

/// The handlers of `key`, none if there is no association for it.
pub open spec fn handlers_of(map: Associations, key: Seq<char>) -> Seq<Seq<char>> {
    if map.contains_key(key) {
        map[key]
    } else {
        Seq::empty()
    }
}

/// The associations that have handlers.
pub open spec fn with_handlers(map: Associations) -> Associations {
    Map::new(|key: Seq<char>| map.contains_key(key) && map[key].len() > 0, |key: Seq<char>| map[key])
}

/// The associations whose MIME type `pattern` does not cover.
pub open spec fn without_matches(map: Associations, pattern: Seq<char>) -> Associations {
    Map::new(
        |key: Seq<char>| map.contains_key(key) && !wild_matches(pattern, key),
        |key: Seq<char>| map[key],
    )
}

/// The associations, with the first occurrence of `handler` taken out wherever
/// `pattern` covers the MIME type.
pub open spec fn without_handler(
    map: Associations,
    pattern: Seq<char>,
    handler: Seq<char>,
) -> Associations {
    Map::new(
        |key: Seq<char>| map.contains_key(key),
        |key: Seq<char>|
            if wild_matches(pattern, key) {
                without(map[key], handler)
            } else {
                map[key]
            },
    )
}

proof fn lemma_keys_distinct(pairs: Seq<(Seq<char>, Seq<Seq<char>>)>, i: int, j: int)
    requires
        is_ordered(pairs),
        0 <= i < pairs.len(),
        0 <= j < pairs.len(),
        pairs[i].0 == pairs[j].0,
    ensures
        i == j,
{
    lemma_text_lt_irreflexive(pairs[i].0);
}

/// The handlers of a MIME type are those that stand beside it.
pub proof fn lemma_map_of(pairs: Seq<(Seq<char>, Seq<Seq<char>>)>)
    requires
        is_ordered(pairs),
    ensures
        forall|i: int|
            #![trigger pairs[i]]
            0 <= i < pairs.len() ==> map_of(pairs).contains_key(pairs[i].0) && map_of(
                pairs,
            )[pairs[i].0] == pairs[i].1,
{
    assert forall|i: int|
        #![trigger pairs[i]]
        0 <= i < pairs.len() implies map_of(pairs).contains_key(pairs[i].0) && map_of(
        pairs,
    )[pairs[i].0] == pairs[i].1 by {
        let key = pairs[i].0;
        assert(has_key(pairs, key));
        lemma_keys_distinct(pairs, i, index_of_key(pairs, key));
    }
}

/// The associations are those of `map`, if they agree pair by pair.
pub(crate) proof fn lemma_map_is(pairs: Seq<(Seq<char>, Seq<Seq<char>>)>, map: Associations)
    requires
        is_ordered(pairs),
        forall|i: int|
            #![trigger pairs[i]]
            0 <= i < pairs.len() ==> map.contains_key(pairs[i].0) && map[pairs[i].0] == pairs[i].1,
        forall|key: Seq<char>| #[trigger] map.contains_key(key) ==> has_key(pairs, key),
    ensures
        map_of(pairs) == map,
{
    lemma_map_of(pairs);
    assert forall|key: Seq<char>| has_key(pairs, key) implies map.contains_key(key)
        && map_of(pairs)[key] == map[key] by {
        let i = choose|i: int| 0 <= i < pairs.len() && #[trigger] pairs[i].0 == key;
        assert(pairs[i].0 == key);
    }
    assert(map_of(pairs) =~= map);
}

pub(crate) proof fn lemma_insert_pair(
    pairs: Seq<(Seq<char>, Seq<Seq<char>>)>,
    i: int,
    key: Seq<char>,
    value: Seq<Seq<char>>,
)
    requires
        is_ordered(pairs),
        0 <= i <= pairs.len(),
        forall|j: int| 0 <= j < i ==> text_lt(#[trigger] pairs[j].0, key),
        i < pairs.len() ==> text_lt(key, pairs[i].0),
    ensures
        is_ordered(pairs.insert(i, (key, value))),
        map_of(pairs.insert(i, (key, value))) == map_of(pairs).insert(key, value),
{
    let new = pairs.insert(i, (key, value));
    assert forall|a: int, b: int| 0 <= a < b < new.len() implies text_lt(
        #[trigger] new[a].0,
        #[trigger] new[b].0,
    ) by {
        if b < i {
            assert(text_lt(pairs[a].0, pairs[b].0));
        } else if b == i {
            assert(text_lt(pairs[a].0, key));
        } else if a > i {
            assert(text_lt(pairs[a - 1].0, pairs[b - 1].0));
        } else if a == i {
            if b - 1 > i {
                assert(text_lt(pairs[i].0, pairs[b - 1].0));
                lemma_text_lt_transitive(key, pairs[i].0, pairs[b - 1].0);
            }
        } else {
            assert(text_lt(pairs[a].0, pairs[b - 1].0));
        }
    }
    lemma_map_of(pairs);
    let map = map_of(pairs).insert(key, value);
    assert forall|j: int| 0 <= j < new.len() implies map.contains_key((#[trigger] new[j]).0)
        && map[new[j].0] == new[j].1 by {
        if j != i {
            lemma_keys_of(new, i, j);
            let k = if j < i {
                j
            } else {
                j - 1
            };
            assert(new[j] == pairs[k]);
        }
    }
    assert forall|k: Seq<char>| #[trigger] map.contains_key(k) implies has_key(new, k) by {
        if k == key {
            assert(new[i].0 == k);
        } else {
            assert(has_key(pairs, k));
            let j = choose|j: int| 0 <= j < pairs.len() && #[trigger] pairs[j].0 == k;
            if j < i {
                assert(new[j].0 == k);
            } else {
                assert(new[j + 1].0 == k);
            }
        }
    }
    lemma_map_is(new, map);
}

proof fn lemma_keys_of(pairs: Seq<(Seq<char>, Seq<Seq<char>>)>, i: int, j: int)
    requires
        is_ordered(pairs),
        0 <= i < pairs.len(),
        0 <= j < pairs.len(),
        i != j,
    ensures
        pairs[i].0 != pairs[j].0,
{
    if pairs[i].0 == pairs[j].0 {
        lemma_keys_distinct(pairs, i, j);
    }
}

proof fn lemma_update_pair(
    pairs: Seq<(Seq<char>, Seq<Seq<char>>)>,
    i: int,
    value: Seq<Seq<char>>,
)
    requires
        is_ordered(pairs),
        0 <= i < pairs.len(),
    ensures
        is_ordered(pairs.update(i, (pairs[i].0, value))),
        map_of(pairs.update(i, (pairs[i].0, value))) == map_of(pairs).insert(pairs[i].0, value),
{
    let key = pairs[i].0;
    let new = pairs.update(i, (key, value));
    assert forall|a: int, b: int| 0 <= a < b < new.len() implies text_lt(
        #[trigger] new[a].0,
        #[trigger] new[b].0,
    ) by {
        assert(text_lt(pairs[a].0, pairs[b].0));
    }
    lemma_map_of(pairs);
    let map = map_of(pairs).insert(key, value);
    assert forall|j: int| 0 <= j < new.len() implies map.contains_key((#[trigger] new[j]).0)
        && map[new[j].0] == new[j].1 by {
        if j != i {
            lemma_keys_of(pairs, i, j);
            assert(new[j] == pairs[j]);
        }
    }
    assert forall|k: Seq<char>| #[trigger] map.contains_key(k) implies has_key(new, k) by {
        if k == key {
            assert(new[i].0 == k);
        } else {
            assert(has_key(pairs, k));
            let j = choose|j: int| 0 <= j < pairs.len() && #[trigger] pairs[j].0 == k;
            assert(new[j].0 == k);
        }
    }
    lemma_map_is(new, map);
}

proof fn lemma_remove_pair(pairs: Seq<(Seq<char>, Seq<Seq<char>>)>, i: int)
    requires
        is_ordered(pairs),
        0 <= i < pairs.len(),
    ensures
        is_ordered(pairs.remove(i)),
        map_of(pairs.remove(i)) == map_of(pairs).remove(pairs[i].0),
{
    let key = pairs[i].0;
    let new = pairs.remove(i);
    assert forall|a: int, b: int| 0 <= a < b < new.len() implies text_lt(
        #[trigger] new[a].0,
        #[trigger] new[b].0,
    ) by {
        let a0 = if a < i {
            a
        } else {
            a + 1
        };
        let b0 = if b < i {
            b
        } else {
            b + 1
        };
        assert(text_lt(pairs[a0].0, pairs[b0].0));
    }
    lemma_map_of(pairs);
    let map = map_of(pairs).remove(key);
    assert forall|j: int| 0 <= j < new.len() implies map.contains_key((#[trigger] new[j]).0)
        && map[new[j].0] == new[j].1 by {
        let k = if j < i {
            j
        } else {
            j + 1
        };
        assert(new[j] == pairs[k]);
        lemma_keys_of(pairs, i, k);
    }
    assert forall|k: Seq<char>| #[trigger] map.contains_key(k) implies has_key(new, k) by {
        assert(has_key(pairs, k));
        let j = choose|j: int| 0 <= j < pairs.len() && #[trigger] pairs[j].0 == k;
        if j < i {
            assert(new[j].0 == k);
        } else {
            assert(new[j - 1].0 == k);
        }
    }
    lemma_map_is(new, map);
}

/// The order of the associations is determined by what they are.
pub proof fn order_is_determined(
    a: Seq<(Seq<char>, Seq<Seq<char>>)>,
    b: Seq<(Seq<char>, Seq<Seq<char>>)>,
)
    requires
        is_ordered(a),
        is_ordered(b),
        map_of(a) == map_of(b),
    ensures
        a == b,
    decreases a.len(),
{
    lemma_map_of(a);
    lemma_map_of(b);
    if a.len() == 0 {
        if b.len() > 0 {
            assert(map_of(a).contains_key(b[0].0));
            assert(has_key(a, b[0].0));
        }
        assert(a =~= b);
    } else {
        let la = a.len() - 1;
        assert(map_of(b).contains_key(a[la].0));
        assert(has_key(b, a[la].0));
        let lb = b.len() - 1;
        let j = choose|j: int| 0 <= j < b.len() && #[trigger] b[j].0 == a[la].0;
        assert(map_of(a).contains_key(b[lb].0));
        assert(has_key(a, b[lb].0));
        let i = choose|i: int| 0 <= i < a.len() && #[trigger] a[i].0 == b[lb].0;
        if j < lb {
            assert(text_lt(b[j].0, b[lb].0));
            if i < la {
                assert(text_lt(a[i].0, a[la].0));
                lemma_text_lt_transitive(a[la].0, b[lb].0, a[la].0);
            }
            lemma_text_lt_irreflexive(a[la].0);
        }
        assert(a[la] == b[lb]);
        let a0 = a.drop_last();
        let b0 = b.drop_last();
        lemma_remove_pair(a, la);
        lemma_remove_pair(b, lb);
        assert(a.remove(la) =~= a0);
        assert(b.remove(lb) =~= b0);
        order_is_determined(a0, b0);
        assert(a =~= a0.push(a[la]));
        assert(b =~= b0.push(b[lb]));
    }
}

/// Associations of MIME types with handlers. Each MIME type occurs once, and
/// they are kept in ascending order.
#[derive(Debug)]
pub struct MimeMap {
    entries: Vec<Association>,
}

impl View for MimeMap {
    type V = Associations;

    open spec fn view(&self) -> Associations {
        map_of(self.pairs())
    }
}

impl Clone for MimeMap {
    fn clone(&self) -> (r: Self)
        ensures
            r.pairs() == self.pairs(),
    {
        let mut entries: Vec<Association> = Vec::new();
        let mut i: usize = 0;
        while i < self.entries.len()
            invariant
                i <= self.entries@.len(),
                entries@.len() == i,
                forall|j: int| 0 <= j < i ==> (#[trigger] entries@[j])@ == self.entries@[j]@,
            decreases self.entries@.len() - i,
        {
            let mime = self.entries[i].mime.clone();
            let handlers = self.entries[i].handlers.clone();
            entries.push(Association { mime, handlers });
            i += 1;
        }
        let r = MimeMap { entries };
        assert(r.pairs() =~= self.pairs());
        r
    }
}

impl MimeMap {
    /// The associations in their order.
    pub closed spec fn pairs(&self) -> Seq<(Seq<char>, Seq<Seq<char>>)> {
        self.entries@.map_values(|a: Association| a@)
    }

    /// The MIME types are in strictly ascending order.
    pub open spec fn wf(&self) -> bool {
        is_ordered(self.pairs())
    }

    /// No associations.
    pub fn new() -> (r: MimeMap)
        ensures
            r.wf(),
            r@ == Associations::empty(),
            r.pairs() == Seq::<(Seq<char>, Seq<Seq<char>>)>::empty(),
    {
        let r = MimeMap { entries: Vec::new() };
        assert(r.pairs() =~= Seq::empty());
        assert(r@ =~= Associations::empty());
        r
    }

    pub fn len(&self) -> (r: usize)
        ensures
            r == self.pairs().len(),
    {
        self.entries.len()
    }

    pub fn is_empty(&self) -> (r: bool)
        ensures
            r == (self.pairs().len() == 0),
            r == (self@ == Associations::empty()),
    {
        proof {
            if self.pairs().len() == 0 {
                assert(self@ =~= Associations::empty());
            } else {
                assert(has_key(self.pairs(), self.pairs()[0].0));
                assert(self@.contains_key(self.pairs()[0].0));
            }
        }
        self.entries.len() == 0
    }

    /// The MIME type of the association at position `i`.
    pub fn key_at(&self, i: usize) -> (r: &Mime)
        requires
            i < self.pairs().len(),
        ensures
            r@ == self.pairs()[i as int].0,
    {
        &self.entries[i].mime
    }

    /// The handlers of the association at position `i`.
    pub fn handlers_at(&self, i: usize) -> (r: &DesktopList)
        requires
            i < self.pairs().len(),
        ensures
            r@ == self.pairs()[i as int].1,
    {
        &self.entries[i].handlers
    }

    /// The position of the first MIME type that does not come before `key`.
    fn lower_bound(&self, key: &str) -> (r: usize)
        requires
            self.wf(),
        ensures
            r <= self.pairs().len(),
            forall|i: int| 0 <= i < r ==> text_lt(#[trigger] self.pairs()[i].0, key@),
            r < self.pairs().len() ==> !text_lt(self.pairs()[r as int].0, key@),
    {
        let mut i: usize = 0;
        while i < self.entries.len() && text_before(self.entries[i].mime.as_str(), key)
            invariant
                i <= self.entries@.len(),
                self.pairs().len() == self.entries@.len(),
                forall|j: int| 0 <= j < i ==> text_lt(#[trigger] self.pairs()[j].0, key@),
            decreases self.entries@.len() - i,
        {
            assert(self.pairs()[i as int].0 == self.entries@[i as int].mime@);
            i += 1;
        }
        i
    }

    /// The position of `key`, if there is an association for it.
    fn position(&self, key: &str) -> (r: Option<usize>)
        requires
            self.wf(),
        ensures
            match r {
                Some(i) => i < self.pairs().len() && self.pairs()[i as int].0 == key@,
                None => !has_key(self.pairs(), key@),
            },
            r is Some <==> self@.contains_key(key@),
    {
        let i = self.lower_bound(key);
        if i < self.entries.len() && same_text(self.entries[i].mime.as_str(), key) {
            assert(self.pairs()[i as int].0 == key@);
            Some(i)
        } else {
            proof {
                if has_key(self.pairs(), key@) {
                    let j = choose|j: int|
                        0 <= j < self.pairs().len() && #[trigger] self.pairs()[j].0 == key@;
                    if j < i {
                        lemma_text_lt_irreflexive(key@);
                    } else if i < j {
                        assert(text_lt(self.pairs()[i as int].0, self.pairs()[j].0));
                    }
                }
            }
            None
        }
    }

    /// The handlers of `mime`.
    pub fn get(&self, mime: &Mime) -> (r: Option<&DesktopList>)
        requires
            self.wf(),
        ensures
            match r {
                Some(list) => self@.contains_key(mime@) && list@ == self@[mime@],
                None => !self@.contains_key(mime@),
            },
    {
        match self.position(mime.as_str()) {
            Some(i) => {
                proof {
                    lemma_map_of(self.pairs());
                    assert(self.pairs()[i as int] == self.entries@[i as int]@);
                }
                Some(&self.entries[i].handlers)
            },
            None => None,
        }
    }

    /// Whether there is an association for `mime`.
    pub fn contains_key(&self, mime: &Mime) -> (r: bool)
        requires
            self.wf(),
        ensures
            r == self@.contains_key(mime@),
    {
        self.position(mime.as_str()).is_some()
    }

    /// Sets the handlers of `mime`.
    pub fn insert(&mut self, mime: Mime, handlers: DesktopList)
        requires
            old(self).wf(),
        ensures
            final(self).wf(),
            final(self)@ == old(self)@.insert(mime@, handlers@),
    {
        let ghost before = self.pairs();
        let ghost pair = (mime@, handlers@);
        let i = self.lower_bound(mime.as_str());
        if i < self.entries.len() && same_text(self.entries[i].mime.as_str(), mime.as_str()) {
            self.entries.set(i, Association { mime, handlers });
            proof {
                lemma_update_pair(before, i as int, pair.1);
                assert(self.pairs() =~= before.update(i as int, pair));
            }
        } else {
            proof {
                if i < before.len() {
                    lemma_text_lt_total(before[i as int].0, pair.0);
                }
                lemma_insert_pair(before, i as int, pair.0, pair.1);
            }
            self.entries.insert(i, Association { mime, handlers });
            assert(self.pairs() =~= before.insert(i as int, pair));
        }
    }

    /// Takes out the association for `mime`, and says whether there was one.
    pub fn remove(&mut self, mime: &Mime) -> (r: bool)
        requires
            old(self).wf(),
        ensures
            final(self).wf(),
            final(self)@ == old(self)@.remove(mime@),
            r == old(self)@.contains_key(mime@),
    {
        let ghost before = self.pairs();
        match self.position(mime.as_str()) {
            Some(i) => {
                proof {
                    lemma_remove_pair(before, i as int);
                }
                let _ = self.entries.remove(i);
                assert(self.pairs() =~= before.remove(i as int));
                true
            },
            None => {
                assert(self@.remove(mime@) =~= self@);
                false
            },
        }
    }

    /// Adds `handler` at the end of the handlers of `mime`.
    pub fn push_handler(&mut self, mime: Mime, handler: DesktopHandler)
        requires
            old(self).wf(),
        ensures
            final(self).wf(),
            final(self)@ == old(self)@.insert(
                mime@,
                handlers_of(old(self)@, mime@).push(handler@),
            ),
    {
        let mut handlers = match self.get(&mime) {
            Some(list) => list.clone(),
            None => DesktopList::new(),
        };
        handlers.push_back(handler);
        self.insert(mime, handlers);
    }

    /// Takes out the associations without handlers.
    pub fn retain_non_empty(&mut self)
        requires
            old(self).wf(),
        ensures
            final(self).wf(),
            final(self)@ == with_handlers(old(self)@),
    {
        let ghost all = self@;
        let mut i: usize = 0;
        while i < self.entries.len()
            invariant
                i <= self.entries@.len(),
                self.pairs().len() == self.entries@.len(),
                self.wf(),
                all == old(self)@,
                forall|j: int| 0 <= j < i ==> (#[trigger] self.pairs()[j]).1.len() > 0,
                forall|key: Seq<char>| #[trigger]
                    self@.contains_key(key) ==> all.contains_key(key) && self@[key] == all[key],
                forall|key: Seq<char>|
                    all.contains_key(key) && (#[trigger] all[key]).len() > 0 ==> self@.contains_key(
                        key,
                    ),
            decreases self.entries@.len() - i,
        {
            let ghost before = self.pairs();
            let ghost held = self@;
            assert(before[i as int] == self.entries@[i as int]@);
            proof {
                lemma_map_of(before);
            }
            if self.entries[i].handlers.is_empty() {
                proof {
                    lemma_remove_pair(before, i as int);
                }
                let _ = self.entries.remove(i);
                assert(self.pairs() =~= before.remove(i as int));
                assert(self@ == held.remove(before[i as int].0));
                assert forall|key: Seq<char>| #[trigger]
                    self@.contains_key(key) implies all.contains_key(key) && self@[key]
                    == all[key] by {
                    assert(held.contains_key(key));
                }
            } else {
                i += 1;
            }
        }
        proof {
            lemma_map_of(self.pairs());
            assert forall|key: Seq<char>| #[trigger] self@.contains_key(key) implies all[key].len()
                > 0 by {
                assert(has_key(self.pairs(), key));
                let j = choose|j: int|
                    0 <= j < self.pairs().len() && #[trigger] self.pairs()[j].0 == key;
                assert(self.pairs()[j].1.len() > 0);
            }
            assert(self@ =~= with_handlers(all));
        }
    }

    /// Takes out the associations whose MIME type `pattern` covers.
    pub fn remove_matching(&mut self, pattern: &str)
        requires
            old(self).wf(),
        ensures
            final(self).wf(),
            final(self)@ == without_matches(old(self)@, pattern@),
    {
        let ghost all = self@;
        let mut i: usize = 0;
        while i < self.entries.len()
            invariant
                i <= self.entries@.len(),
                self.pairs().len() == self.entries@.len(),
                self.wf(),
                all == old(self)@,
                forall|j: int|
                    0 <= j < i ==> !wild_matches(pattern@, (#[trigger] self.pairs()[j]).0),
                forall|key: Seq<char>| #[trigger]
                    self@.contains_key(key) ==> all.contains_key(key) && self@[key] == all[key],
                forall|key: Seq<char>| #[trigger]
                    all.contains_key(key) && !wild_matches(pattern@, key) ==> self@.contains_key(
                        key,
                    ),
            decreases self.entries@.len() - i,
        {
            let ghost before = self.pairs();
            let ghost held = self@;
            assert(before[i as int] == self.entries@[i as int]@);
            proof {
                lemma_map_of(before);
            }
            if matches_wildcard(pattern, self.entries[i].mime.as_str()) {
                proof {
                    lemma_remove_pair(before, i as int);
                }
                let _ = self.entries.remove(i);
                assert(self.pairs() =~= before.remove(i as int));
                assert(self@ == held.remove(before[i as int].0));
                assert forall|key: Seq<char>| #[trigger]
                    self@.contains_key(key) implies all.contains_key(key) && self@[key]
                    == all[key] by {
                    assert(held.contains_key(key));
                }
            } else {
                i += 1;
            }
        }
        proof {
            assert forall|key: Seq<char>| #[trigger] self@.contains_key(key) implies !wild_matches(
                pattern@,
                key,
            ) by {
                assert(has_key(self.pairs(), key));
                let j = choose|j: int|
                    0 <= j < self.pairs().len() && #[trigger] self.pairs()[j].0 == key;
                assert(!wild_matches(pattern@, self.pairs()[j].0));
            }
            assert(self@ =~= without_matches(all, pattern@));
        }
    }

    /// Takes out the first occurrence of `handler` wherever `pattern` covers the
    /// MIME type.
    pub fn remove_handler_matching(&mut self, pattern: &str, handler: &DesktopHandler)
        requires
            old(self).wf(),
        ensures
            final(self).wf(),
            final(self)@ == without_handler(old(self)@, pattern@, handler@),
    {
        let ghost all = self.pairs();
        let ghost goal = without_handler(self@, pattern@, handler@);
        let mut i: usize = 0;
        while i < self.entries.len()
            invariant
                i <= self.entries@.len(),
                self.pairs().len() == self.entries@.len(),
                all.len() == self.entries@.len(),
                self.wf(),
                is_ordered(all),
                all == old(self).pairs(),
                goal == without_handler(map_of(all), pattern@, handler@),
                forall|j: int|
                    0 <= j < all.len() ==> (#[trigger] self.pairs()[j]).0 == all[j].0,
                forall|j: int|
                    0 <= j < i ==> (#[trigger] self.pairs()[j]).1 == goal[all[j].0],
                forall|j: int| i <= j < all.len() ==> #[trigger] self.pairs()[j] == all[j],
            decreases self.entries@.len() - i,
        {
            let ghost before = self.pairs();
            assert(before[i as int] == self.entries@[i as int]@);
            proof {
                lemma_map_of(all);
                assert(all[i as int] == before[i as int]);
            }
            if matches_wildcard(pattern, self.entries[i].mime.as_str()) {
                let mime = self.entries[i].mime.clone();
                let mut handlers = self.entries[i].handlers.clone();
                let _ = handlers.remove_first(handler);
                proof {
                    lemma_update_pair(before, i as int, handlers@);
                }
                let ghost pair = (before[i as int].0, handlers@);
                self.entries.set(i, Association { mime, handlers });
                assert(self.pairs() =~= before.update(i as int, pair));
            }
            i += 1;
        }
        proof {
            lemma_map_of(all);
            assert forall|j: int| 0 <= j < self.pairs().len() implies goal.contains_key(
                (#[trigger] self.pairs()[j]).0,
            ) && goal[self.pairs()[j].0] == self.pairs()[j].1 by {
                assert(all[j].0 == self.pairs()[j].0);
            }
            assert forall|key: Seq<char>| #[trigger] goal.contains_key(key) implies has_key(
                self.pairs(),
                key,
            ) by {
                assert(has_key(all, key));
                let j = choose|j: int| 0 <= j < all.len() && #[trigger] all[j].0 == key;
                assert(self.pairs()[j].0 == key);
            }
            lemma_map_is(self.pairs(), goal);
        }
    }
}

/// In order, a MIME type comes before all that stand behind it.
pub proof fn mime_types_ascend(pairs: Seq<(Seq<char>, Seq<Seq<char>>)>)
    ensures
        is_ordered(pairs) <==> forall|i: int, j: int|
            0 <= i < j < pairs.len() ==> text_lt((#[trigger] pairs[i]).0, (#[trigger] pairs[j]).0),
{
}

/// Taking out what a pattern covers leaves the rest as it is.
pub proof fn what_is_not_covered_stays(
    map: Associations,
    pattern: Seq<char>,
    handler: Seq<char>,
    key: Seq<char>,
)
    ensures
        without_matches(map, pattern).contains_key(key) <==> map.contains_key(key)
            && !wild_matches(pattern, key),
        map.contains_key(key) && !wild_matches(pattern, key) ==> without_matches(map, pattern)[key]
            == map[key] && without_handler(map, pattern, handler)[key] == map[key],
        without_handler(map, pattern, handler).contains_key(key) <==> map.contains_key(key),
        map.contains_key(key) && wild_matches(pattern, key) ==> without_handler(
            map,
            pattern,
            handler,
        )[key] == without(map[key], handler),
{
}

} // verus!

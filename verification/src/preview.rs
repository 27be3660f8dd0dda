//! The documents that LSP clients send to the preview, and which one it shows.
use vstd::prelude::*;
use crate::preview_ui::{quits, zoom_of, InputEvent, KeyCode, ZoomAction};
use crate::text::{chars_of, push_str, string_of};

verus! {

/// A document update received from one LSP client connection.
#[derive(Debug)]
pub enum PreviewEvent {
    Update { client: u64, uri: String, text: String, version: i64 },
    Close { client: u64, uri: String },
    Disconnect { client: u64 },
    /// The LSP accept loop could not continue; the preview must exit.
    Fatal(String),
}

/// One open document of one client, with what the viewer cached for it.
pub struct PreviewDocument<C> {
    pub client: u64,
    pub uri: String,
    pub source: String,
    pub version: i64,
    pub changed: u64,
    pub cache: Option<C>,
}

/// What the store knows of a document: its text, version, when it last
/// changed and the viewer's cache.
pub struct SpecDocument<C> {
    pub source: Seq<char>,
    pub version: i64,
    pub changed: u64,
    pub cache: Option<C>,
}

pub open spec fn doc_key<C>(d: PreviewDocument<C>) -> (u64, Seq<char>) {
    (d.client, d.uri@)
}

pub open spec fn doc_value<C>(d: PreviewDocument<C>) -> SpecDocument<C> {
    SpecDocument { source: d.source@, version: d.version, changed: d.changed, cache: d.cache }
}

pub open spec fn has_key<C>(s: Seq<PreviewDocument<C>>, k: (u64, Seq<char>)) -> bool {
    exists|i: int| 0 <= i < s.len() && doc_key(#[trigger] s[i]) == k
}

pub open spec fn key_index<C>(s: Seq<PreviewDocument<C>>, k: (u64, Seq<char>)) -> int {
    choose|i: int| 0 <= i < s.len() && doc_key(#[trigger] s[i]) == k
}

/// The documents keyed by client and URI.
pub open spec fn docs_map<C>(s: Seq<PreviewDocument<C>>) -> Map<(u64, Seq<char>), SpecDocument<C>> {
    Map::new(|k: (u64, Seq<char>)| has_key(s, k), |k: (u64, Seq<char>)| doc_value(s[key_index(s, k)]))
}

/// No two documents share a client and URI.
pub open spec fn keys_unique<C>(s: Seq<PreviewDocument<C>>) -> bool {
    forall|i: int, j: int| 0 <= i < s.len() && 0 <= j < s.len() && i != j ==> doc_key(#[trigger] s[i]) != doc_key(#[trigger] s[j])
}

pub proof fn lemma_at_index<C>(s: Seq<PreviewDocument<C>>, i: int)
    requires
        keys_unique(s),
        0 <= i < s.len(),
    ensures
        docs_map(s).dom().contains(doc_key(s[i])),
        docs_map(s)[doc_key(s[i])] == doc_value(s[i]),
{
    let k = doc_key(s[i]);
    assert(has_key(s, k));
    let j = key_index(s, k);
    assert(doc_key(s[j]) == k);
    assert(i == j);
}

pub proof fn lemma_update<C>(s: Seq<PreviewDocument<C>>, i: int, d: PreviewDocument<C>)
    requires
        keys_unique(s),
        0 <= i < s.len(),
        doc_key(d) == doc_key(s[i]),
    ensures
        keys_unique(s.update(i, d)),
        docs_map(s.update(i, d)) == docs_map(s).insert(doc_key(d), doc_value(d)),
{
    let t = s.update(i, d);
    assert forall|a: int, b: int| 0 <= a < t.len() && 0 <= b < t.len() && a != b implies doc_key(#[trigger] t[a]) != doc_key(#[trigger] t[b]) by {
        assert(doc_key(t[a]) == doc_key(s[a]));
        assert(doc_key(t[b]) == doc_key(s[b]));
    }
    let m = docs_map(s).insert(doc_key(d), doc_value(d));
    assert forall|k: (u64, Seq<char>)| #[trigger] docs_map(t).dom().contains(k) == m.dom().contains(k) by {
        if has_key(t, k) {
            let j = choose|j: int| 0 <= j < t.len() && doc_key(#[trigger] t[j]) == k;
            if j != i {
                assert(doc_key(s[j]) == k);
            }
        }
        if has_key(s, k) {
            let j = choose|j: int| 0 <= j < s.len() && doc_key(#[trigger] s[j]) == k;
            assert(doc_key(t[j]) == k);
        }
    }
    assert forall|k: (u64, Seq<char>)| #[trigger] docs_map(t).dom().contains(k) implies docs_map(t)[k] == m[k] by {
        let j = key_index(t, k);
        if j == i {
            assert(k == doc_key(d));
        } else {
            assert(doc_key(s[j]) == k);
            lemma_at_index(s, j);
        }
    }
    assert(docs_map(t) =~= m);
}

pub proof fn lemma_push<C>(s: Seq<PreviewDocument<C>>, d: PreviewDocument<C>)
    requires
        keys_unique(s),
        !docs_map(s).dom().contains(doc_key(d)),
    ensures
        keys_unique(s.push(d)),
        docs_map(s.push(d)) == docs_map(s).insert(doc_key(d), doc_value(d)),
{
    let t = s.push(d);
    assert forall|a: int, b: int| 0 <= a < t.len() && 0 <= b < t.len() && a != b implies doc_key(#[trigger] t[a]) != doc_key(#[trigger] t[b]) by {
        if a < s.len() && b < s.len() {
        } else if a < s.len() {
            assert(has_key(s, doc_key(s[a])));
        } else {
            assert(has_key(s, doc_key(s[b])));
        }
    }
    let m = docs_map(s).insert(doc_key(d), doc_value(d));
    assert forall|k: (u64, Seq<char>)| #[trigger] docs_map(t).dom().contains(k) == m.dom().contains(k) by {
        if has_key(t, k) {
            let j = choose|j: int| 0 <= j < t.len() && doc_key(#[trigger] t[j]) == k;
            if j < s.len() {
                assert(doc_key(s[j]) == k);
            }
        }
        if has_key(s, k) {
            let j = choose|j: int| 0 <= j < s.len() && doc_key(#[trigger] s[j]) == k;
            assert(doc_key(t[j]) == k);
        }
        if k == doc_key(d) {
            assert(doc_key(t[s.len() as int]) == k);
        }
    }
    assert forall|k: (u64, Seq<char>)| #[trigger] docs_map(t).dom().contains(k) implies docs_map(t)[k] == m[k] by {
        let j = key_index(t, k);
        if j == s.len() {
        } else {
            assert(doc_key(s[j]) == k);
            lemma_at_index(s, j);
            assert(k != doc_key(d));
        }
    }
    assert(docs_map(t) =~= m);
}

pub proof fn lemma_remove<C>(s: Seq<PreviewDocument<C>>, i: int)
    requires
        keys_unique(s),
        0 <= i < s.len(),
    ensures
        keys_unique(s.remove(i)),
        docs_map(s.remove(i)) == docs_map(s).remove(doc_key(s[i])),
{
    let t = s.remove(i);
    let ki = doc_key(s[i]);
    assert forall|a: int| 0 <= a < t.len() implies #[trigger] t[a] == s[if a < i { a } else { a + 1 }] by {}
    assert forall|a: int, b: int| 0 <= a < t.len() && 0 <= b < t.len() && a != b implies doc_key(#[trigger] t[a]) != doc_key(#[trigger] t[b]) by {
        let sa = if a < i { a } else { a + 1 };
        let sb = if b < i { b } else { b + 1 };
        assert(t[a] == s[sa]);
        assert(t[b] == s[sb]);
    }
    let m = docs_map(s).remove(ki);
    assert forall|k: (u64, Seq<char>)| #[trigger] docs_map(t).dom().contains(k) == m.dom().contains(k) by {
        if has_key(t, k) {
            let j = choose|j: int| 0 <= j < t.len() && doc_key(#[trigger] t[j]) == k;
            let sj = if j < i { j } else { j + 1 };
            assert(t[j] == s[sj]);
            assert(doc_key(s[sj]) == k);
            assert(k != ki);
        }
        if has_key(s, k) && k != ki {
            let j = choose|j: int| 0 <= j < s.len() && doc_key(#[trigger] s[j]) == k;
            assert(j != i);
            let tj = if j < i { j } else { j - 1 };
            assert(t[tj] == s[j]);
            assert(doc_key(t[tj]) == k);
        }
    }
    assert forall|k: (u64, Seq<char>)| #[trigger] docs_map(t).dom().contains(k) implies docs_map(t)[k] == m[k] by {
        let j = key_index(t, k);
        let sj = if j < i { j } else { j + 1 };
        assert(t[j] == s[sj]);
        lemma_at_index(s, sj);
    }
    assert(docs_map(t) =~= m);
}

/// The open documents of all clients, keyed by client and URI.
pub struct DocumentStore<C> {
    documents: Vec<PreviewDocument<C>>,
    sequence: u64,
}

impl<C> View for DocumentStore<C> {
    type V = Map<(u64, Seq<char>), SpecDocument<C>>;

    closed spec fn view(&self) -> Map<(u64, Seq<char>), SpecDocument<C>> {
        docs_map(self.documents@)
    }
}

impl<C> DocumentStore<C> {
    /// No two documents share a client and URI.
    pub closed spec fn wf(self) -> bool {
        keys_unique(self.documents@)
    }

    /// The number of events applied so far, modulo 2^64.
    pub closed spec fn sequence(self) -> u64 {
        self.sequence
    }

    /// An empty store.
    pub fn new() -> (r: Self)
        ensures
            r.wf(),
            r@ == Map::<(u64, Seq<char>), SpecDocument<C>>::empty(),
            r.sequence() == 0,
    {
        let r = DocumentStore { documents: Vec::new(), sequence: 0 };
        assert(r@ =~= Map::<(u64, Seq<char>), SpecDocument<C>>::empty());
        r
    }

    fn find(&self, client: u64, uri: &str) -> (r: Option<usize>)
        ensures
            match r {
                Some(i) => i < self.documents@.len() && doc_key(self.documents@[i as int]) == (client, uri@),
                None => !has_key(self.documents@, (client, uri@)),
            },
    {
        let mut i: usize = 0;
        while i < self.documents.len()
            invariant
                i <= self.documents@.len(),
                forall|j: int| 0 <= j < i ==> doc_key(#[trigger] self.documents@[j]) != (client, uri@),
            decreases self.documents@.len() - i,
        {
            if self.documents[i].client == client && crate::text::same_text(self.documents[i].uri.as_str(), uri) {
                return Some(i);
            }
            i += 1;
        }
        None
    }

    /// The number of open documents.
    pub fn len(&self) -> (n: usize)
        requires
            self.wf(),
        ensures
            n == self@.dom().len(),
    {
        proof {
            lemma_len(self.documents@);
        }
        self.documents.len()
    }

    /// Apply one event; `true` when the set of documents or a document's text changed.
    pub fn apply(&mut self, event: PreviewEvent) -> (changed: bool)
        requires
            old(self).wf(),
        ensures
            final(self).wf(),
            final(self).sequence() == old(self).sequence().wrapping_add(1),
            match event {
                PreviewEvent::Update { client, uri, text, version } => {
                    let k = (client, uri@);
                    if old(self)@.dom().contains(k) && version <= old(self)@[k].version {
                        !changed && final(self)@ == old(self)@
                    } else {
                        changed && final(self)@ == old(self)@.insert(
                            k,
                            SpecDocument {
                                source: text@,
                                version,
                                changed: final(self).sequence(),
                                cache: if old(self)@.dom().contains(k) {
                                    old(self)@[k].cache
                                } else {
                                    None
                                },
                            },
                        )
                    }
                },
                PreviewEvent::Close { client, uri } => changed == old(self)@.dom().contains((client, uri@))
                    && final(self)@ == old(self)@.remove((client, uri@)),
                PreviewEvent::Disconnect { client } => changed == (exists|k: (u64, Seq<char>)|
                    #[trigger] old(self)@.dom().contains(k) && k.0 == client) && final(self)@
                    == old(self)@.restrict(old(self)@.dom().filter(|k: (u64, Seq<char>)| k.0 != client)),
                PreviewEvent::Fatal(_) => !changed && final(self)@ == old(self)@,
            },
    {
        self.sequence = self.sequence.wrapping_add(1);
        match event {
            PreviewEvent::Update { client, uri, text, version } => {
                match self.find(client, uri.as_str()) {
                    Some(i) => {
                        proof {
                            lemma_at_index(self.documents@, i as int);
                        }
                        if version <= self.documents[i].version {
                            return false;
                        }
                        let ghost before = self.documents@;
                        proof {
                            lemma_remove(before, i as int);
                        }
                        let previous = self.documents.remove(i);
                        let d = PreviewDocument {
                            client,
                            uri,
                            source: text,
                            version,
                            changed: self.sequence,
                            cache: previous.cache,
                        };
                        proof {
                            lemma_update(before, i as int, d);
                            assert(before.remove(i as int).insert(i as int, d) =~= before.update(i as int, d));
                        }
                        self.documents.insert(i, d);
                        true
                    },
                    None => {
                        let d = PreviewDocument { client, uri, source: text, version, changed: self.sequence, cache: None };
                        proof {
                            lemma_push(self.documents@, d);
                        }
                        self.documents.push(d);
                        true
                    },
                }
            },
            PreviewEvent::Close { client, uri } => {
                match self.find(client, uri.as_str()) {
                    Some(i) => {
                        proof {
                            lemma_at_index(self.documents@, i as int);
                            lemma_remove(self.documents@, i as int);
                        }
                        self.documents.remove(i);
                        true
                    },
                    None => {
                        assert(old(self)@.remove((client, uri@)) =~= old(self)@);
                        false
                    },
                }
            },
            PreviewEvent::Disconnect { client } => self.disconnect(client),
            PreviewEvent::Fatal(_) => false,
        }
    }
}


pub proof fn lemma_len<C>(s: Seq<PreviewDocument<C>>)
    requires
        keys_unique(s),
    ensures
        docs_map(s).dom().len() == s.len(),
        docs_map(s).dom().finite(),
{
    let keys = s.map_values(|d: PreviewDocument<C>| doc_key(d));
    assert(keys.no_duplicates()) by {
        assert forall|i: int, j: int| 0 <= i < keys.len() && 0 <= j < keys.len() && i != j implies keys[i] != keys[j] by {
            assert(doc_key(s[i]) != doc_key(s[j]));
        }
    }
    keys.unique_seq_to_set();
    assert forall|k: (u64, Seq<char>)| #[trigger] docs_map(s).dom().contains(k) == keys.to_set().contains(k) by {
        if has_key(s, k) {
            let j = choose|j: int| 0 <= j < s.len() && doc_key(#[trigger] s[j]) == k;
            assert(keys[j] == k);
        }
        if keys.to_set().contains(k) {
            let j = choose|j: int| 0 <= j < keys.len() && keys[j] == k;
            assert(doc_key(s[j]) == k);
        }
    }
    assert(docs_map(s).dom() =~= keys.to_set());
    vstd::seq_lib::seq_to_set_is_finite(keys);
}

pub proof fn lemma_empty<C>(s: Seq<PreviewDocument<C>>)
    requires
        s.len() == 0,
    ensures
        docs_map(s) == Map::<(u64, Seq<char>), SpecDocument<C>>::empty(),
{
    assert(docs_map(s) =~= Map::<(u64, Seq<char>), SpecDocument<C>>::empty());
}

impl<C> DocumentStore<C> {
    fn disconnect(&mut self, client: u64) -> (changed: bool)
        requires
            keys_unique(old(self).documents@),
        ensures
            keys_unique(final(self).documents@),
            final(self).sequence == old(self).sequence,
            changed == (exists|k: (u64, Seq<char>)| #[trigger] old(self)@.dom().contains(k) && k.0 == client),
            final(self)@ == old(self)@.restrict(old(self)@.dom().filter(|k: (u64, Seq<char>)| k.0 != client)),
    {
        let ghost orig = docs_map(self.documents@);
        let ghost keep = orig.dom().filter(|k: (u64, Seq<char>)| k.0 != client);
        let mut docs: Vec<PreviewDocument<C>> = Vec::new();
        std::mem::swap(&mut docs, &mut self.documents);
        assert(docs_map(docs@) == orig);
        assert((exists|k: (u64, Seq<char>)| #[trigger] orig.dom().contains(k) && k.0 == client) == (exists|j: int|
            0 <= j < docs@.len() && (#[trigger] docs@[j]).client == client)) by {
            if exists|k: (u64, Seq<char>)| #[trigger] orig.dom().contains(k) && k.0 == client {
                let k = choose|k: (u64, Seq<char>)| #[trigger] orig.dom().contains(k) && k.0 == client;
                let j = key_index(docs@, k);
                assert(docs@[j].client == client);
            }
            if exists|j: int| 0 <= j < docs@.len() && (#[trigger] docs@[j]).client == client {
                let j = choose|j: int| 0 <= j < docs@.len() && (#[trigger] docs@[j]).client == client;
                lemma_at_index(docs@, j);
                assert(orig.dom().contains(doc_key(docs@[j])));
            }
        }
        let mut removed = false;
        let mut i: usize = 0;
        while i < docs.len()
            invariant
                i <= docs@.len(),
                keys_unique(docs@),
                forall|j: int| 0 <= j < i ==> (#[trigger] docs@[j]).client != client,
                docs_map(docs@).restrict(docs_map(docs@).dom().filter(|k: (u64, Seq<char>)| k.0 != client))
                    == orig.restrict(keep),
                (exists|k: (u64, Seq<char>)| #[trigger] orig.dom().contains(k) && k.0 == client) == (removed
                    || exists|j: int| i <= j < docs@.len() && (#[trigger] docs@[j]).client == client),
                forall|k: (u64, Seq<char>)| #[trigger] docs_map(docs@).dom().contains(k) ==> orig.dom().contains(k),
            decreases docs@.len() - i,
        {
            if docs[i].client == client {
                let ghost before = docs@;
                proof {
                    lemma_remove(before, i as int);
                    lemma_at_index(before, i as int);
                    let m = docs_map(before);
                    let m2 = m.remove(doc_key(before[i as int]));
                    assert(m2.restrict(m2.dom().filter(|k: (u64, Seq<char>)| k.0 != client)) =~= m.restrict(
                        m.dom().filter(|k: (u64, Seq<char>)| k.0 != client),
                    ));
                }
                docs.remove(i);
                proof {
                    assert forall|j: int| 0 <= j < i implies (#[trigger] docs@[j]).client != client by {
                        assert(docs@[j] == before[j]);
                    }
                    assert(orig.dom().contains(doc_key(before[i as int])));
                }
                removed = true;
            } else {
                proof {
                    assert forall|j: int| i + 1 <= j < docs@.len() && (#[trigger] docs@[j]).client == client implies i <= j by {}
                }
                i += 1;
            }
        }
        proof {
            let m = docs_map(docs@);
            assert forall|k: (u64, Seq<char>)| #[trigger] m.dom().contains(k) implies k.0 != client by {
                let j = key_index(docs@, k);
                assert(docs@[j].client != client);
            }
            assert(m.restrict(m.dom().filter(|k: (u64, Seq<char>)| k.0 != client)) =~= m);
            assert(!(exists|j: int| i <= j < docs@.len() && (#[trigger] docs@[j]).client == client));
            assert(removed == (exists|k: (u64, Seq<char>)| #[trigger] orig.dom().contains(k) && k.0 == client));
            assert(orig == old(self)@);
        }
        std::mem::swap(&mut docs, &mut self.documents);
        removed
    }

    fn best_index(&self) -> (r: Option<usize>)
        requires
            keys_unique(self.documents@),
        ensures
            match r {
                None => self.documents@.len() == 0,
                Some(b) => b < self.documents@.len() && forall|j: int| 0 <= j < self.documents@.len() ==> (#[trigger] self.documents@[j]).changed <= self.documents@[b as int].changed,
            },
    {
        if self.documents.len() == 0 {
            return None;
        }
        let mut best: usize = 0;
        let mut i: usize = 1;
        while i < self.documents.len()
            invariant
                1 <= i <= self.documents@.len(),
                best < i,
                forall|j: int| 0 <= j < i ==> (#[trigger] self.documents@[j]).changed <= self.documents@[best as int].changed,
            decreases self.documents@.len() - i,
        {
            if self.documents[i].changed >= self.documents[best].changed {
                best = i;
            }
            i += 1;
        }
        Some(best)
    }

    /// The URI and text of the most recently changed document, if any is open.
    pub fn selected(&self) -> (r: Option<(&str, &str)>)
        requires
            self.wf(),
        ensures
            match r {
                None => self@.dom() =~= Set::<(u64, Seq<char>)>::empty(),
                Some((u, s)) => exists|k: (u64, Seq<char>)| #[trigger] self@.dom().contains(k) && k.1 == u@
                    && self@[k].source == s@ && forall|k2: (u64, Seq<char>)| #[trigger] self@.dom().contains(k2)
                    ==> self@[k2].changed <= self@[k].changed,
            },
    {
        match self.best_index() {
            None => {
                proof {
                    lemma_empty(self.documents@);
                }
                None
            },
            Some(b) => {
                proof {
                    self.lemma_best(b as int);
                }
                Some((self.documents[b].uri.as_str(), self.documents[b].source.as_str()))
            },
        }
    }

    /// The client and URI of the most recently changed document, if any is open.
    pub fn selected_key(&self) -> (r: Option<(u64, String)>)
        requires
            self.wf(),
        ensures
            match r {
                None => self@.dom() =~= Set::<(u64, Seq<char>)>::empty(),
                Some((c, u)) => self@.dom().contains((c, u@)) && forall|k2: (u64, Seq<char>)| #[trigger] self@.dom().contains(k2)
                    ==> self@[k2].changed <= self@[(c, u@)].changed,
            },
    {
        match self.best_index() {
            None => {
                proof {
                    lemma_empty(self.documents@);
                }
                None
            },
            Some(b) => {
                proof {
                    self.lemma_best(b as int);
                }
                Some((self.documents[b].client, self.documents[b].uri.clone()))
            },
        }
    }

    proof fn lemma_best(&self, b: int)
        requires
            keys_unique(self.documents@),
            0 <= b < self.documents@.len(),
            forall|j: int| 0 <= j < self.documents@.len() ==> (#[trigger] self.documents@[j]).changed <= self.documents@[b].changed,
        ensures
            self@.dom().contains(doc_key(self.documents@[b])),
            self@[doc_key(self.documents@[b])] == doc_value(self.documents@[b]),
            forall|k2: (u64, Seq<char>)| #[trigger] self@.dom().contains(k2) ==> self@[k2].changed <= self.documents@[b].changed,
    {
        lemma_at_index(self.documents@, b);
        assert forall|k2: (u64, Seq<char>)| #[trigger] self@.dom().contains(k2) implies self@[k2].changed <= self.documents@[b].changed by {
            let j = key_index(self.documents@, k2);
            lemma_at_index(self.documents@, j);
        }
    }

    /// The text of a client's document, if it is open.
    pub fn source_of(&self, client: u64, uri: &str) -> (r: Option<&str>)
        requires
            self.wf(),
        ensures
            match r {
                Some(s) => self@.dom().contains((client, uri@)) && self@[(client, uri@)].source == s@,
                None => !self@.dom().contains((client, uri@)),
            },
    {
        match self.find(client, uri) {
            Some(i) => {
                proof {
                    lemma_at_index(self.documents@, i as int);
                }
                Some(self.documents[i].source.as_str())
            },
            None => None,
        }
    }

    /// What the viewer cached for a client's document, if it is open and has a cache.
    pub fn cache_of(&self, client: u64, uri: &str) -> (r: Option<&C>)
        requires
            self.wf(),
        ensures
            match r {
                Some(c) => self@.dom().contains((client, uri@)) && self@[(client, uri@)].cache == Some(*c),
                None => !self@.dom().contains((client, uri@)) || self@[(client, uri@)].cache is None,
            },
    {
        match self.find(client, uri) {
            Some(i) => {
                proof {
                    lemma_at_index(self.documents@, i as int);
                }
                self.documents[i].cache.as_ref()
            },
            None => None,
        }
    }

    /// Record the viewer's cache for a client's document; nothing happens when it is not open.
    pub fn set_cache(&mut self, client: u64, uri: &str, cache: C)
        requires
            old(self).wf(),
        ensures
            final(self).wf(),
            final(self).sequence() == old(self).sequence(),
            final(self)@ == if old(self)@.dom().contains((client, uri@)) {
                old(self)@.insert(
                    (client, uri@),
                    SpecDocument { cache: Some(cache), ..old(self)@[(client, uri@)] },
                )
            } else {
                old(self)@
            },
    {
        match self.find(client, uri) {
            Some(i) => {
                let ghost before = self.documents@;
                proof {
                    lemma_at_index(before, i as int);
                    lemma_remove(before, i as int);
                }
                let previous = self.documents.remove(i);
                let d = PreviewDocument {
                    client: previous.client,
                    uri: previous.uri,
                    source: previous.source,
                    version: previous.version,
                    changed: previous.changed,
                    cache: Some(cache),
                };
                proof {
                    lemma_update(before, i as int, d);
                    assert(before.remove(i as int).insert(i as int, d) =~= before.update(i as int, d));
                }
                self.documents.insert(i, d);
            },
            None => {},
        }
    }
}

/// A file name the export prompt accepts: one path component, not `.` or `..`.
pub open spec fn is_file_name(f: Seq<char>) -> bool {
    &&& f.len() > 0
    &&& !f.contains('/')
    &&& f != seq!['.']
    &&& f != seq!['.', '.']
}

/// `directory` joined with a relative file name, with one `/` between them.
pub open spec fn joined_path(directory: Seq<char>, f: Seq<char>) -> Seq<char> {
    if directory.len() > 0 && directory.last() == '/' {
        directory + f
    } else {
        directory + seq!['/'] + f
    }
}

/// Where an export named `filename` goes in `directory`, or why it cannot:
/// the directory must be absolute and the name a plain file name.
pub open spec fn export_destination_of(directory: Seq<char>, filename: Seq<char>) -> Result<Seq<char>, Seq<char>> {
    if directory.len() > 0 && directory[0] == '/' && is_file_name(filename) {
        Ok(joined_path(directory, filename))
    } else {
        Err("export filename must be a file name"@)
    }
}

fn has_slash(f: &[char]) -> (r: bool)
    ensures
        r == f@.contains('/'),
{
    let mut i: usize = 0;
    while i < f.len()
        invariant
            i <= f@.len(),
            forall|j: int| 0 <= j < i ==> f@[j] != '/',
        decreases f@.len() - i,
    {
        if f[i] == '/' {
            return true;
        }
        i += 1;
    }
    false
}

/// The path an export of `filename` writes in `directory` (see `export_destination_of`).
pub fn export_destination(directory: &str, filename: &str) -> (r: Result<String, String>)
    ensures
        match r {
            Ok(p) => export_destination_of(directory@, filename@) == Ok::<Seq<char>, Seq<char>>(p@),
            Err(e) => export_destination_of(directory@, filename@) == Err::<Seq<char>, Seq<char>>(e@),
        },
{
    proof {
        reveal_strlit("export filename must be a file name");
    }
    let d = chars_of(directory);
    let f = chars_of(filename);
    let dot_name = f.len() == 1 && f[0] == '.';
    let dots_name = f.len() == 2 && f[0] == '.' && f[1] == '.';
    proof {
        if f@.len() == 1 && f@ != seq!['.'] {
            assert(f@[0] != '.') by {
                if f@[0] == '.' {
                    assert(f@ =~= seq!['.']);
                }
            }
        }
        if f@.len() == 2 && f@ != seq!['.', '.'] {
            assert(f@[0] != '.' || f@[1] != '.') by {
                if f@[0] == '.' && f@[1] == '.' {
                    assert(f@ =~= seq!['.', '.']);
                }
            }
        }
    }
    let plain = f.len() > 0 && !has_slash(f.as_slice()) && !dot_name && !dots_name;
    if d.len() > 0 && d[0] == '/' && plain {
        let mut out = string_of(d.as_slice());
        if d[d.len() - 1] != '/' {
            out.push('/');
        }
        push_str(&mut out, f.as_slice());
        proof {
            assert(out@ =~= joined_path(directory@, filename@));
        }
        Ok(out)
    } else {
        Err("export filename must be a file name".to_string())
    }
}

/// What a key did to the export prompt.
#[derive(Clone, Copy, Debug, PartialEq, Eq, Structural)]
pub enum PromptStep {
    /// Not a key the prompt takes; the viewer handles it.
    Unhandled,
    /// The file name was edited.
    Edited,
    /// Escape: the prompt closes without exporting.
    Cancelled,
    /// Enter: export under the typed name.
    Submitted,
}

/// The export prompt: the file name typed so far and the last export's error.
pub struct ExportPrompt {
    pub input: Vec<char>,
    pub error: Option<String>,
}

/// The prompt's input after a key, and what the key did: Escape cancels, Enter
/// submits, Backspace deletes the last character, a character is appended;
/// keys with Control held and all other events are not the prompt's.
pub open spec fn prompt_step_of(input: Seq<char>, event: InputEvent) -> (Seq<char>, PromptStep) {
    match event {
        InputEvent::Key { code, modifiers } => if modifiers.bits & 2 != 0 {
            (input, PromptStep::Unhandled)
        } else {
            match code {
                KeyCode::Esc => (input, PromptStep::Cancelled),
                KeyCode::Backspace => (if input.len() > 0 {
                    input.drop_last()
                } else {
                    input
                }, PromptStep::Edited),
                KeyCode::Char(c) => (input.push(c), PromptStep::Edited),
                KeyCode::Enter => (input, PromptStep::Submitted),
                KeyCode::Other => (input, PromptStep::Unhandled),
            }
        },
        _ => (input, PromptStep::Unhandled),
    }
}

impl ExportPrompt {
    /// An empty prompt.
    pub fn new() -> (r: ExportPrompt)
        ensures
            r.input@ == Seq::<char>::empty(),
            r.error is None,
    {
        ExportPrompt { input: Vec::new(), error: None }
    }

    /// Apply one event to the prompt (see `prompt_step_of`); an edit clears the error.
    pub fn handle(&mut self, event: &InputEvent) -> (r: PromptStep)
        ensures
            (final(self).input@, r) == prompt_step_of(old(self).input@, *event),
            r == PromptStep::Edited ==> final(self).error is None,
            r != PromptStep::Edited ==> final(self).error == old(self).error,
    {
        match event {
            InputEvent::Key { code, modifiers } => {
                if modifiers.bits & 2 != 0 {
                    return PromptStep::Unhandled;
                }
                match code {
                    KeyCode::Esc => PromptStep::Cancelled,
                    KeyCode::Backspace => {
                        if self.input.len() > 0 {
                            self.input.pop();
                        }
                        self.error = None;
                        PromptStep::Edited
                    },
                    KeyCode::Char(c) => {
                        self.input.push(*c);
                        self.error = None;
                        PromptStep::Edited
                    },
                    KeyCode::Enter => PromptStep::Submitted,
                    KeyCode::Other => PromptStep::Unhandled,
                }
            },
            _ => PromptStep::Unhandled,
        }
    }

    /// Record the outcome of a submitted export: `true` when it succeeded and the
    /// prompt closes; otherwise the prompt stays open showing the error.
    pub fn finish(&mut self, result: Result<(), String>) -> (close: bool)
        ensures
            close == result is Ok,
            final(self).input@ == old(self).input@,
            match result {
                Ok(()) => final(self).error == old(self).error,
                Err(e) => final(self).error == Some(e),
            },
    {
        match result {
            Ok(()) => true,
            Err(e) => {
                self.error = Some(e);
                false
            },
        }
    }
}

/// How long, in milliseconds, the viewer waits after a document change before rendering.
pub const RENDER_DEBOUNCE_MS: u64 = 120;

/// The longest, in milliseconds, the viewer waits for input before looking at the documents again.
pub const POLL_MS: u64 = 50;

/// What the preview viewer's loop has pending: a redraw, and a render that is
/// not due before `deadline` (milliseconds on the loop's clock).
#[derive(Clone, Copy, Debug, PartialEq, Eq, Structural)]
pub struct ViewerLoop {
    pub dirty: bool,
    pub preview_dirty: bool,
    pub deadline: Option<u64>,
}

/// What an input event asks of the viewer.
#[derive(Clone, Copy, Debug, PartialEq, Eq, Structural)]
pub enum ViewerInput {
    /// Control-C or Control-Q: leave the viewer.
    Quit,
    /// The export prompt is open and takes the event.
    Prompt,
    /// `e`: open the export prompt.
    OpenPrompt,
    /// A zoom key.
    Zoom(ZoomAction),
    /// A mouse event, which may pan the image.
    Pan,
    /// The terminal was resized.
    Resize,
    /// Nothing the viewer reacts to.
    Ignore,
}

/// How the viewer reads an event: quitting first, then the open prompt, then
/// its own keys, the mouse, and resizes.
pub open spec fn viewer_input_of(event: InputEvent, prompt_open: bool) -> ViewerInput {
    if quits(event) {
        ViewerInput::Quit
    } else if prompt_open {
        ViewerInput::Prompt
    } else {
        match event {
            InputEvent::Key { code: KeyCode::Char(c), modifiers } => if c == 'e' && modifiers.bits == 0 {
                ViewerInput::OpenPrompt
            } else {
                match zoom_of(event) {
                    Some(a) => ViewerInput::Zoom(a),
                    None => ViewerInput::Ignore,
                }
            },
            InputEvent::Key { .. } => match zoom_of(event) {
                Some(a) => ViewerInput::Zoom(a),
                None => ViewerInput::Ignore,
            },
            InputEvent::Mouse { .. } => ViewerInput::Pan,
            InputEvent::Resize(_, _) => ViewerInput::Resize,
            InputEvent::Other => ViewerInput::Ignore,
        }
    }
}

/// Classify an input event for the viewer (see `viewer_input_of`).
pub fn viewer_input(event: &InputEvent, prompt_open: bool) -> (r: ViewerInput)
    ensures
        r == viewer_input_of(*event, prompt_open),
{
    if crate::preview_ui::is_quit_event(event) {
        return ViewerInput::Quit;
    }
    if prompt_open {
        return ViewerInput::Prompt;
    }
    match event {
        InputEvent::Key { code: KeyCode::Char(c), modifiers } => {
            if *c == 'e' && modifiers.bits == 0 {
                ViewerInput::OpenPrompt
            } else {
                match crate::preview_ui::zoom_action(event) {
                    Some(a) => ViewerInput::Zoom(a),
                    None => ViewerInput::Ignore,
                }
            }
        },
        InputEvent::Key { .. } => match crate::preview_ui::zoom_action(event) {
            Some(a) => ViewerInput::Zoom(a),
            None => ViewerInput::Ignore,
        },
        InputEvent::Mouse { .. } => ViewerInput::Pan,
        InputEvent::Resize(_, _) => ViewerInput::Resize,
        InputEvent::Other => ViewerInput::Ignore,
    }
}

/// `now` plus `ms`, at most the clock's limit.
pub open spec fn later(now: u64, ms: u64) -> u64 {
    if now + ms > u64::MAX {
        u64::MAX
    } else {
        (now + ms) as u64
    }
}

impl ViewerLoop {
    /// A new viewer draws and renders at once.
    pub fn new() -> (r: Self)
        ensures
            r == (ViewerLoop { dirty: true, preview_dirty: true, deadline: None }),
    {
        ViewerLoop { dirty: true, preview_dirty: true, deadline: None }
    }

    /// The documents changed at `now`: redraw, and render once the debounce has passed.
    pub fn documents_changed(&mut self, now: u64)
        ensures
            *final(self) == (ViewerLoop {
                dirty: true,
                preview_dirty: true,
                deadline: Some(later(now, RENDER_DEBOUNCE_MS)),
            }),
    {
        self.dirty = true;
        self.preview_dirty = true;
        self.deadline = Some(now.saturating_add(RENDER_DEBOUNCE_MS));
    }

    /// Whether a render is due at `now`: one is pending and its deadline, if any, has come.
    pub fn render_due(&self, now: u64) -> (r: bool)
        ensures
            r == (self.preview_dirty && match self.deadline {
                Some(t) => now >= t,
                None => true,
            }),
    {
        self.preview_dirty && match self.deadline {
            Some(t) => now >= t,
            None => true,
        }
    }

    /// A render happened: nothing is pending but a redraw.
    pub fn rendered(&mut self)
        ensures
            *final(self) == (ViewerLoop { dirty: true, preview_dirty: false, deadline: None }),
    {
        self.preview_dirty = false;
        self.deadline = None;
        self.dirty = true;
    }

    /// The screen was drawn.
    pub fn drawn(&mut self)
        ensures
            *final(self) == (ViewerLoop { dirty: false, ..*old(self) }),
    {
        self.dirty = false;
    }

    /// Something on screen changed (a pan, an edit of the prompt, opening it): redraw.
    pub fn touched(&mut self)
        ensures
            *final(self) == (ViewerLoop { dirty: true, ..*old(self) }),
    {
        self.dirty = true;
    }

    /// The zoom changed or the terminal was resized at `now`: render at once and redraw.
    pub fn rerender_now(&mut self, now: u64)
        ensures
            *final(self) == (ViewerLoop { dirty: true, preview_dirty: true, deadline: Some(now) }),
    {
        self.preview_dirty = true;
        self.deadline = Some(now);
        self.dirty = true;
    }

    /// How long to wait for input at `now`: until a pending deadline, and never
    /// longer than `POLL_MS`.
    pub fn poll_wait(&self, now: u64) -> (r: u64)
        ensures
            r == match self.deadline {
                Some(t) => if t <= now {
                    0
                } else if t - now < POLL_MS {
                    (t - now) as u64
                } else {
                    POLL_MS
                },
                None => POLL_MS,
            },
            r <= POLL_MS,
    {
        match self.deadline {
            Some(t) => {
                let left = t.saturating_sub(now);
                if left < POLL_MS {
                    left
                } else {
                    POLL_MS
                }
            },
            None => POLL_MS,
        }
    }
}

/// The event that opens a source preview: the source as version 1 of `uri`
/// from a single client, or why there is no preview without Kitty.
pub fn run_source_preview(uri: String, source: String, kitty_available: bool) -> (r: Result<PreviewEvent, String>)
    ensures
        kitty_available ==> (r matches Ok(PreviewEvent::Update { client, uri: u, text, version }) && client == 0
            && u@ == uri@ && text@ == source@ && version == 1),
        !kitty_available ==> (r matches Err(e) && e@
            == "`gph render` without --out requires Kitty (set KITTY_WINDOW_ID or TERM=xterm-kitty)"@),
{
    if !kitty_available {
        return Err(
            "`gph render` without --out requires Kitty (set KITTY_WINDOW_ID or TERM=xterm-kitty)".to_string(),
        );
    }
    Ok(PreviewEvent::Update { client: 0, uri, text: source, version: 1 })
}

} // verus!

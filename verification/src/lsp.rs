//! Decisions of the LSP transport: which document versions a connection
//! accepts, and what a failed accept loop tells the preview.
use vstd::prelude::*;
use std::sync::mpsc::Sender;
use crate::preview::PreviewEvent;
use crate::text::same_text;

verus! {

#[verifier::external_type_specification]
#[verifier::external_body]
#[verifier::reject_recursive_types(T)]
pub struct ExSender<T>(Sender<T>);

/// Calls `Sender::send`, which hands the event to the receiving end or fails when
/// that end is gone. Whether it was delivered is not stated; a failure is dropped,
/// as there is no one left to tell.
#[verifier::external_body]
fn send_event(updates: &Sender<PreviewEvent>, event: PreviewEvent) {
    let _ = updates.send(event);
}

/// The event that tells the preview the accept loop failed, if it did.
pub fn accept_failure_event(result: &Result<(), String>) -> (r: Option<PreviewEvent>)
    ensures
        match result {
            Ok(()) => r is None,
            Err(e) => r matches Some(PreviewEvent::Fatal(m)) && m@ == e@,
        },
{
    match result {
        Ok(()) => None,
        Err(e) => Some(PreviewEvent::Fatal(e.clone())),
    }
}

/// Forward a failed accept loop to the preview as a fatal event.
pub fn report_accept_result(updates: &Sender<PreviewEvent>, result: &Result<(), String>) {
    if let Some(event) = accept_failure_event(result) {
        send_event(updates, event);
    }
}

pub open spec fn entry_key(e: (String, i32)) -> Seq<char> {
    e.0@
}

pub open spec fn has_uri(s: Seq<(String, i32)>, k: Seq<char>) -> bool {
    exists|i: int| 0 <= i < s.len() && entry_key(#[trigger] s[i]) == k
}

pub open spec fn uri_index(s: Seq<(String, i32)>, k: Seq<char>) -> int {
    choose|i: int| 0 <= i < s.len() && entry_key(#[trigger] s[i]) == k
}

/// The versions by URI.
pub open spec fn versions_map(s: Seq<(String, i32)>) -> Map<Seq<char>, i32> {
    Map::new(|k: Seq<char>| has_uri(s, k), |k: Seq<char>| s[uri_index(s, k)].1)
}

pub open spec fn uris_unique(s: Seq<(String, i32)>) -> bool {
    forall|i: int, j: int| 0 <= i < s.len() && 0 <= j < s.len() && i != j ==> entry_key(#[trigger] s[i]) != entry_key(#[trigger] s[j])
}

pub proof fn lemma_entry_at(s: Seq<(String, i32)>, i: int)
    requires
        uris_unique(s),
        0 <= i < s.len(),
    ensures
        versions_map(s).dom().contains(entry_key(s[i])),
        versions_map(s)[entry_key(s[i])] == s[i].1,
{
    let k = entry_key(s[i]);
    assert(has_uri(s, k));
    let j = uri_index(s, k);
    assert(entry_key(s[j]) == k);
}

pub proof fn lemma_entry_update(s: Seq<(String, i32)>, i: int, e: (String, i32))
    requires
        uris_unique(s),
        0 <= i < s.len(),
        entry_key(e) == entry_key(s[i]),
    ensures
        uris_unique(s.update(i, e)),
        versions_map(s.update(i, e)) == versions_map(s).insert(entry_key(e), e.1),
{
    let t = s.update(i, e);
    assert forall|a: int, b: int| 0 <= a < t.len() && 0 <= b < t.len() && a != b implies entry_key(#[trigger] t[a]) != entry_key(#[trigger] t[b]) by {
        assert(entry_key(t[a]) == entry_key(s[a]));
        assert(entry_key(t[b]) == entry_key(s[b]));
    }
    let m = versions_map(s).insert(entry_key(e), e.1);
    assert forall|k: Seq<char>| #[trigger] versions_map(t).dom().contains(k) == m.dom().contains(k) by {
        if has_uri(t, k) {
            let j = choose|j: int| 0 <= j < t.len() && entry_key(#[trigger] t[j]) == k;
            if j != i {
                assert(entry_key(s[j]) == k);
            }
        }
        if has_uri(s, k) {
            let j = choose|j: int| 0 <= j < s.len() && entry_key(#[trigger] s[j]) == k;
            assert(entry_key(t[j]) == k);
        }
    }
    assert forall|k: Seq<char>| #[trigger] versions_map(t).dom().contains(k) implies versions_map(t)[k] == m[k] by {
        let j = uri_index(t, k);
        if j != i {
            assert(entry_key(s[j]) == k);
            lemma_entry_at(s, j);
        }
    }
    assert(versions_map(t) =~= m);
}

pub proof fn lemma_entry_push(s: Seq<(String, i32)>, e: (String, i32))
    requires
        uris_unique(s),
        !versions_map(s).dom().contains(entry_key(e)),
    ensures
        uris_unique(s.push(e)),
        versions_map(s.push(e)) == versions_map(s).insert(entry_key(e), e.1),
{
    let t = s.push(e);
    assert forall|a: int, b: int| 0 <= a < t.len() && 0 <= b < t.len() && a != b implies entry_key(#[trigger] t[a]) != entry_key(#[trigger] t[b]) by {
        if a < s.len() && b < s.len() {
        } else if a < s.len() {
            assert(has_uri(s, entry_key(s[a])));
        } else {
            assert(has_uri(s, entry_key(s[b])));
        }
    }
    let m = versions_map(s).insert(entry_key(e), e.1);
    assert forall|k: Seq<char>| #[trigger] versions_map(t).dom().contains(k) == m.dom().contains(k) by {
        if has_uri(t, k) {
            let j = choose|j: int| 0 <= j < t.len() && entry_key(#[trigger] t[j]) == k;
            if j < s.len() {
                assert(entry_key(s[j]) == k);
            }
        }
        if has_uri(s, k) {
            let j = choose|j: int| 0 <= j < s.len() && entry_key(#[trigger] s[j]) == k;
            assert(entry_key(t[j]) == k);
        }
        if k == entry_key(e) {
            assert(entry_key(t[s.len() as int]) == k);
        }
    }
    assert forall|k: Seq<char>| #[trigger] versions_map(t).dom().contains(k) implies versions_map(t)[k] == m[k] by {
        let j = uri_index(t, k);
        if j < s.len() {
            assert(entry_key(s[j]) == k);
            lemma_entry_at(s, j);
        }
    }
    assert(versions_map(t) =~= m);
}

pub proof fn lemma_entry_remove(s: Seq<(String, i32)>, i: int)
    requires
        uris_unique(s),
        0 <= i < s.len(),
    ensures
        uris_unique(s.remove(i)),
        versions_map(s.remove(i)) == versions_map(s).remove(entry_key(s[i])),
{
    let t = s.remove(i);
    let ki = entry_key(s[i]);
    assert forall|a: int, b: int| 0 <= a < t.len() && 0 <= b < t.len() && a != b implies entry_key(#[trigger] t[a]) != entry_key(#[trigger] t[b]) by {
        let sa = if a < i { a } else { a + 1 };
        let sb = if b < i { b } else { b + 1 };
        assert(t[a] == s[sa]);
        assert(t[b] == s[sb]);
    }
    let m = versions_map(s).remove(ki);
    assert forall|k: Seq<char>| #[trigger] versions_map(t).dom().contains(k) == m.dom().contains(k) by {
        if has_uri(t, k) {
            let j = choose|j: int| 0 <= j < t.len() && entry_key(#[trigger] t[j]) == k;
            let sj = if j < i { j } else { j + 1 };
            assert(t[j] == s[sj]);
            assert(entry_key(s[sj]) == k);
        }
        if has_uri(s, k) && k != ki {
            let j = choose|j: int| 0 <= j < s.len() && entry_key(#[trigger] s[j]) == k;
            let tj = if j < i { j } else { j - 1 };
            assert(t[tj] == s[j]);
            assert(entry_key(t[tj]) == k);
        }
    }
    assert forall|k: Seq<char>| #[trigger] versions_map(t).dom().contains(k) implies versions_map(t)[k] == m[k] by {
        let j = uri_index(t, k);
        let sj = if j < i { j } else { j + 1 };
        assert(t[j] == s[sj]);
        lemma_entry_at(s, sj);
    }
    assert(versions_map(t) =~= m);
}

/// The versions of the documents one LSP connection has open.
pub struct DocumentVersions {
    entries: Vec<(String, i32)>,
}

impl View for DocumentVersions {
    type V = Map<Seq<char>, i32>;

    closed spec fn view(&self) -> Map<Seq<char>, i32> {
        versions_map(self.entries@)
    }
}

/// Whether a connection accepts `version` of `uri`: it must be newer than the
/// open version, and a change (`require_open`) needs the document open.
pub open spec fn accepts(open: Map<Seq<char>, i32>, uri: Seq<char>, version: i32, require_open: bool) -> bool {
    (!open.dom().contains(uri) || version > open[uri]) && (!require_open || open.dom().contains(uri))
}

impl DocumentVersions {
    /// No URI occurs twice.
    pub closed spec fn wf(self) -> bool {
        uris_unique(self.entries@)
    }

    /// No document open.
    pub fn new() -> (r: Self)
        ensures
            r.wf(),
            r@ == Map::<Seq<char>, i32>::empty(),
    {
        let r = DocumentVersions { entries: Vec::new() };
        assert(r@ =~= Map::<Seq<char>, i32>::empty());
        r
    }

    fn find(&self, uri: &str) -> (r: Option<usize>)
        ensures
            match r {
                Some(i) => i < self.entries@.len() && entry_key(self.entries@[i as int]) == uri@,
                None => !has_uri(self.entries@, uri@),
            },
    {
        let mut i: usize = 0;
        while i < self.entries.len()
            invariant
                i <= self.entries@.len(),
                forall|j: int| 0 <= j < i ==> entry_key(#[trigger] self.entries@[j]) != uri@,
            decreases self.entries@.len() - i,
        {
            if same_text(self.entries[i].0.as_str(), uri) {
                return Some(i);
            }
            i += 1;
        }
        None
    }

    /// Record `version` of `uri` if the connection accepts it (see `accepts`);
    /// `true` when it did, and the preview is then to be told.
    pub fn accept(&mut self, uri: &str, version: i32, require_open: bool) -> (accepted: bool)
        requires
            old(self).wf(),
        ensures
            final(self).wf(),
            accepted == accepts(old(self)@, uri@, version, require_open),
            final(self)@ == if accepted {
                old(self)@.insert(uri@, version)
            } else {
                old(self)@
            },
    {
        match self.find(uri) {
            Some(i) => {
                proof {
                    lemma_entry_at(self.entries@, i as int);
                }
                if version <= self.entries[i].1 {
                    return false;
                }
                let e = (self.entries[i].0.clone(), version);
                proof {
                    lemma_entry_update(self.entries@, i as int, e);
                }
                self.entries.set(i, e);
                true
            },
            None => {
                if require_open {
                    return false;
                }
                let e = (crate::text::string_of(crate::text::chars_of(uri).as_slice()), version);
                proof {
                    lemma_entry_push(self.entries@, e);
                }
                self.entries.push(e);
                true
            },
        }
    }

    /// Forget `uri`; `true` when it was open, and the preview is then to be told.
    pub fn close(&mut self, uri: &str) -> (was_open: bool)
        requires
            old(self).wf(),
        ensures
            final(self).wf(),
            was_open == old(self)@.dom().contains(uri@),
            final(self)@ == old(self)@.remove(uri@),
    {
        match self.find(uri) {
            Some(i) => {
                proof {
                    lemma_entry_at(self.entries@, i as int);
                    lemma_entry_remove(self.entries@, i as int);
                }
                self.entries.remove(i);
                true
            },
            None => {
                assert(old(self)@.remove(uri@) =~= old(self)@);
                false
            },
        }
    }
}

} // verus!

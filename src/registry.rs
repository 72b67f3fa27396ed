//! The document and tab registries of a tabbed document application: two
//! arenas and the active tab, each held in a signal so that structural
//! changes reach the effects that read them.

use vstd::prelude::*;
use vstd::utf8::encode_utf8;
use crate::arena::{Arena, ArenaModel, Key};
use crate::runtime::Runtime;
use crate::signal::{Signal, create_signal};

verus! {

/// The kinds of document the application creates.
#[derive(Clone, Copy, Debug, PartialEq, Eq, Structural)]
pub enum NewDocumentKind {
    Text,
    Bitmap,
}

/// A text file.
pub struct TextDocument {
    pub path: String,
}

/// A bitmap image, with the pixel last pointed at, if any.
pub struct ImageDocument {
    pub path: String,
    pub coordinate: Option<(usize, usize)>,
}

/// The form that collects what a new document needs. Each field is a
/// signal of its own, so that editing it reaches only the views that read
/// it.
pub struct NewDocumentForm {
    pub kind: Signal<NewDocumentKind>,
    pub name: Signal<String>,
    pub directory: Signal<String>,
}

/// An open document.
pub enum DocumentEntity {
    Text(TextDocument),
    Image(ImageDocument),
    /// A document still being described; it is replaced in place, under the
    /// same key, once the form completes.
    PendingForm(NewDocumentForm),
}

/// What a tab shows. A document tab refers to its document by key only:
/// the document may be closed while the tab stays.
#[derive(Clone, Copy, Debug, PartialEq, Eq, Structural)]
pub enum TabKind {
    Home,
    Document(Key),
}

/// An open tab, with its display name as a signal of its own.
pub struct TabEntity {
    pub kind: TabKind,
    pub name: Signal<String>,
}

/// Why a document could not be opened.
#[derive(Clone, Copy, Debug, PartialEq, Eq, Structural)]
pub enum OpenError {
    /// The path names neither a `.txt` nor a `.bmp` file.
    UnsupportedKind,
}

/// `s` ends with `suffix`.
pub open spec fn ends_with(s: Seq<u8>, suffix: Seq<u8>) -> bool {
    s.len() >= suffix.len() && s.subrange(s.len() - suffix.len(), s.len() as int) == suffix
}

/// The document kind a path names: `.txt` for text, `.bmp` for a bitmap,
/// judged on the path's UTF-8 bytes, case-sensitively.
pub open spec fn kind_of_path(path: Seq<char>) -> Option<NewDocumentKind> {
    let b = encode_utf8(path);
    if ends_with(b, seq![46u8, 116u8, 120u8, 116u8]) {
        Some(NewDocumentKind::Text)
    } else if ends_with(b, seq![46u8, 98u8, 109u8, 112u8]) {
        Some(NewDocumentKind::Bitmap)
    } else {
        None
    }
}

/// The document kind that `path` names, if any.
pub fn document_kind(path: &str) -> (r: Option<NewDocumentKind>)
    ensures
        r == kind_of_path(path@),
{
    let b = path.as_bytes();
    let n = b.len();
    let ghost txt = seq![46u8, 116u8, 120u8, 116u8];
    let ghost bmp = seq![46u8, 98u8, 109u8, 112u8];
    if n < 4 {
        return None;
    }
    let ghost tail = b@.subrange(n - 4, n as int);
    assert(tail.len() == 4);
    assert(tail[0] == b[n - 4] && tail[1] == b[n - 3] && tail[2] == b[n - 2] && tail[3] == b[n - 1]);
    if b[n - 4] == 46 && b[n - 3] == 116 && b[n - 2] == 120 && b[n - 1] == 116 {
        assert(tail =~= txt);
        Some(NewDocumentKind::Text)
    } else if b[n - 4] == 46 && b[n - 3] == 98 && b[n - 2] == 109 && b[n - 1] == 112 {
        assert(tail != txt) by {
            assert(tail[1] != txt[1] || tail[0] != txt[0] || tail[2] != txt[2] || tail[3] != txt[3]);
        }
        assert(tail =~= bmp);
        Some(NewDocumentKind::Bitmap)
    } else {
        assert(tail != txt) by {
            assert(tail[1] != txt[1] || tail[0] != txt[0] || tail[2] != txt[2] || tail[3] != txt[3]);
        }
        assert(tail != bmp) by {
            assert(tail[1] != bmp[1] || tail[0] != bmp[0] || tail[2] != bmp[2] || tail[3] != bmp[3]);
        }
        None
    }
}

/// `after` is `before` with one value appended under the next key.
pub open spec fn appended<V>(before: ArenaModel<V>, after: ArenaModel<V>) -> bool {
    &&& after.next == before.next + 1
    &&& after.entries.len() == before.entries.len() + 1
    &&& after.entries.drop_last() == before.entries
    &&& after.entries.last().0 == (Key { id: before.next as u64 })
}

/// `d` is the document of kind `kind` at `path`, freshly opened.
pub open spec fn opened_as(d: DocumentEntity, kind: NewDocumentKind, path: Seq<char>) -> bool {
    match d {
        DocumentEntity::Text(t) => kind == NewDocumentKind::Text && t.path@ == path,
        DocumentEntity::Image(i) => kind == NewDocumentKind::Bitmap && i.path@ == path && i.coordinate is None,
        DocumentEntity::PendingForm(_) => false,
    }
}

/// `t` is a tab of kind `kind` whose name currently reads `name`.
pub open spec fn tab_as(t: TabEntity, kind: TabKind, name: Seq<char>) -> bool {
    t.kind == kind && t.name.value()@ == name
}

/// The application's registries: the open documents, the open tabs and the
/// active tab, each in a signal of its own. The active tab may name a tab
/// that is gone; readers treat that as no active tab.
pub struct ApplicationState {
    documents: Signal<Arena<DocumentEntity>>,
    tabs: Signal<Arena<TabEntity>>,
    active_tab: Signal<Option<Key>>,
}

impl ApplicationState {
    pub closed spec fn docs(&self) -> ArenaModel<DocumentEntity> {
        self.documents.value()@
    }

    pub closed spec fn tab_list(&self) -> ArenaModel<TabEntity> {
        self.tabs.value()@
    }

    pub closed spec fn active(&self) -> Option<Key> {
        self.active_tab.value()
    }

    pub closed spec fn documents_signal(&self) -> usize {
        self.documents.spec_id().spec_index()
    }

    pub closed spec fn tabs_signal(&self) -> usize {
        self.tabs.spec_id().spec_index()
    }

    pub closed spec fn active_signal(&self) -> usize {
        self.active_tab.spec_id().spec_index()
    }

    pub open spec fn wf(&self) -> bool {
        self.docs().wf() && self.tab_list().wf()
    }

    /// The live document that the live tab `tab` shows, if any.
    pub open spec fn shown_document(&self, tab: Key) -> Option<Key> {
        if self.tab_list().contains(tab) {
            match self.tab_list().value_of(tab).kind {
                TabKind::Document(d) => if self.docs().contains(d) {
                    Some(d)
                } else {
                    None
                },
                TabKind::Home => None,
            }
        } else {
            None
        }
    }

    /// `self` and `other` report to the same three signals.
    pub open spec fn same_signals(&self, other: &ApplicationState) -> bool {
        &&& self.documents_signal() == other.documents_signal()
        &&& self.tabs_signal() == other.tabs_signal()
        &&& self.active_signal() == other.active_signal()
    }

    /// Empty registries with no active tab, on three new signals.
    pub fn new(rt: &mut Runtime) -> (r: ApplicationState)
        requires
            old(rt)@.wf(),
            old(rt)@.signal_count + 3 <= usize::MAX,
        ensures
            r.wf(),
            r.docs().entries.len() == 0 && r.docs().next == 0,
            r.tab_list().entries.len() == 0 && r.tab_list().next == 0,
            r.active() is None,
            r.documents_signal() == old(rt)@.signal_count,
            r.tabs_signal() == old(rt)@.signal_count + 1,
            r.active_signal() == old(rt)@.signal_count + 2,
            final(rt)@ == old(rt)@.with_signal().with_signal().with_signal(),
    {
        let documents = create_signal(rt, Arena::new());
        let tabs = create_signal(rt, Arena::new());
        let active_tab = create_signal(rt, None);
        ApplicationState { documents, tabs, active_tab }
    }

    /// Read access to the document registry's signal.
    pub fn documents(&self) -> (r: &Signal<Arena<DocumentEntity>>)
        ensures
            r.value()@ == self.docs(),
            r.spec_id().spec_index() == self.documents_signal(),
    {
        &self.documents
    }

    /// Read access to the tab registry's signal.
    pub fn tabs(&self) -> (r: &Signal<Arena<TabEntity>>)
        ensures
            r.value()@ == self.tab_list(),
            r.spec_id().spec_index() == self.tabs_signal(),
    {
        &self.tabs
    }

    /// Read access to the active tab's signal.
    pub fn active_tab(&self) -> (r: &Signal<Option<Key>>)
        ensures
            r.value() == self.active(),
            r.spec_id().spec_index() == self.active_signal(),
    {
        &self.active_tab
    }

    fn push_tab(&mut self, rt: &mut Runtime, kind: TabKind, name: String) -> (k: Key)
        requires
            old(self).wf(),
            old(rt)@.wf(),
            old(rt)@.signal_count < usize::MAX,
            old(self).tab_list().next < u64::MAX,
        ensures
            final(self).wf(),
            final(self).same_signals(old(self)),
            final(self).docs() == old(self).docs(),
            final(self).active() == old(self).active(),
            appended(old(self).tab_list(), final(self).tab_list()),
            tab_as(final(self).tab_list().entries.last().1, kind, name@),
            k == (Key { id: old(self).tab_list().next as u64 }),
            final(rt)@ == old(rt)@.with_signal().notified(old(self).tabs_signal()),
            final(rt)@.wf(),
    {
        let name = create_signal(rt, name);
        let tabs = self.tabs.update(rt);
        let k = tabs.insert(TabEntity { kind, name });
        assert(self.tab_list().entries.drop_last() =~= old(self).tab_list().entries);
        k
    }

    /// Opens the document at `path`, its kind judged by the path, in a new
    /// tab that becomes active. Returns the document's key.
    pub fn open_document(&mut self, rt: &mut Runtime, path: String) -> (r: Result<Key, OpenError>)
        requires
            old(self).wf(),
            old(rt)@.wf(),
            old(rt)@.signal_count < usize::MAX,
            old(self).docs().next < u64::MAX,
            old(self).tab_list().next < u64::MAX,
        ensures
            final(self).wf(),
            final(self).same_signals(old(self)),
            final(rt)@.wf(),
            r is Ok <==> kind_of_path(path@) is Some,
            r is Err ==> r == Err::<Key, OpenError>(OpenError::UnsupportedKind) && final(self).docs() == old(
                self,
            ).docs() && final(self).tab_list() == old(self).tab_list() && final(self).active() == old(
                self,
            ).active() && final(rt)@ == old(rt)@,
            r matches Ok(k) ==> {
                &&& k == (Key { id: old(self).docs().next as u64 })
                &&& appended(old(self).docs(), final(self).docs())
                &&& opened_as(final(self).docs().entries.last().1, kind_of_path(path@).unwrap(), path@)
                &&& appended(old(self).tab_list(), final(self).tab_list())
                &&& tab_as(final(self).tab_list().entries.last().1, TabKind::Document(k), path@)
                &&& final(self).active() == Some(Key { id: old(self).tab_list().next as u64 })
                &&& final(rt)@ == old(rt)@.notified(old(self).documents_signal()).with_signal().notified(
                    old(self).tabs_signal(),
                ).notified(old(self).active_signal())
            },
    {
        let kind = document_kind(path.as_str());
        let tab_name = path.clone();
        let entity = match kind {
            Some(NewDocumentKind::Text) => DocumentEntity::Text(TextDocument { path }),
            Some(NewDocumentKind::Bitmap) => DocumentEntity::Image(ImageDocument { path, coordinate: None }),
            None => {
                return Err(OpenError::UnsupportedKind);
            },
        };
        let docs = self.documents.update(rt);
        let k = docs.insert(entity);
        assert(self.docs().entries.drop_last() =~= old(self).docs().entries);
        let tk = self.push_tab(rt, TabKind::Document(k), tab_name);
        self.active_tab.set(rt, Some(tk));
        Ok(k)
    }

    /// Adds a home tab, leaving the active tab as it is.
    pub fn add_home_tab(&mut self, rt: &mut Runtime) -> (k: Key)
        requires
            old(self).wf(),
            old(rt)@.wf(),
            old(rt)@.signal_count < usize::MAX,
            old(self).tab_list().next < u64::MAX,
        ensures
            final(self).wf(),
            final(self).same_signals(old(self)),
            final(self).docs() == old(self).docs(),
            final(self).active() == old(self).active(),
            appended(old(self).tab_list(), final(self).tab_list()),
            tab_as(final(self).tab_list().entries.last().1, TabKind::Home, "Home"@),
            k == (Key { id: old(self).tab_list().next as u64 }),
            final(rt)@ == old(rt)@.with_signal().notified(old(self).tabs_signal()),
            final(rt)@.wf(),
    {
        self.push_tab(rt, TabKind::Home, "Home".to_owned())
    }

    /// Adds a home tab and makes it active.
    pub fn show_home_tab(&mut self, rt: &mut Runtime) -> (k: Key)
        requires
            old(self).wf(),
            old(rt)@.wf(),
            old(rt)@.signal_count < usize::MAX,
            old(self).tab_list().next < u64::MAX,
        ensures
            final(self).wf(),
            final(self).same_signals(old(self)),
            final(self).docs() == old(self).docs(),
            final(self).active() == Some(k),
            appended(old(self).tab_list(), final(self).tab_list()),
            tab_as(final(self).tab_list().entries.last().1, TabKind::Home, "Home"@),
            k == (Key { id: old(self).tab_list().next as u64 }),
            final(rt)@ == old(rt)@.with_signal().notified(old(self).tabs_signal()).notified(
                old(self).active_signal(),
            ),
            final(rt)@.wf(),
    {
        let k = self.add_home_tab(rt);
        self.active_tab.set(rt, Some(k));
        k
    }

    /// Starts a new document: a pending form (text kind, empty name and
    /// directory) in a new tab that becomes active. Returns the document's
    /// key, which the finished document later takes over.
    pub fn new_document_form(&mut self, rt: &mut Runtime) -> (k: Key)
        requires
            old(self).wf(),
            old(rt)@.wf(),
            old(rt)@.signal_count + 4 <= usize::MAX,
            old(self).docs().next < u64::MAX,
            old(self).tab_list().next < u64::MAX,
        ensures
            final(self).wf(),
            final(self).same_signals(old(self)),
            k == (Key { id: old(self).docs().next as u64 }),
            appended(old(self).docs(), final(self).docs()),
            final(self).docs().entries.last().1 matches DocumentEntity::PendingForm(f) && f.kind.value()
                == NewDocumentKind::Text && f.name.value()@.len() == 0 && f.directory.value()@.len() == 0,
            appended(old(self).tab_list(), final(self).tab_list()),
            tab_as(final(self).tab_list().entries.last().1, TabKind::Document(k), "New document"@),
            final(self).active() == Some(Key { id: old(self).tab_list().next as u64 }),
            final(rt)@ == old(rt)@.with_signal().with_signal().with_signal().notified(
                old(self).documents_signal(),
            ).with_signal().notified(old(self).tabs_signal()).notified(old(self).active_signal()),
            final(rt)@.wf(),
    {
        let kind = create_signal(rt, NewDocumentKind::Text);
        let name = create_signal(rt, String::new());
        let directory = create_signal(rt, String::new());
        let docs = self.documents.update(rt);
        let k = docs.insert(DocumentEntity::PendingForm(NewDocumentForm { kind, name, directory }));
        assert(self.docs().entries.drop_last() =~= old(self).docs().entries);
        let tk = self.push_tab(rt, TabKind::Document(k), "New document".to_owned());
        self.active_tab.set(rt, Some(tk));
        k
    }

    /// Replaces the document under `key` in place, keeping the key, and
    /// returns the one it held; `None`, with nothing changed, when `key` is
    /// stale or unknown.
    pub fn replace_document(&mut self, rt: &mut Runtime, key: Key, document: DocumentEntity) -> (r: Option<
        DocumentEntity,
    >)
        requires
            old(self).wf(),
            old(rt)@.wf(),
        ensures
            final(self).wf(),
            final(self).same_signals(old(self)),
            final(self).tab_list() == old(self).tab_list(),
            final(self).active() == old(self).active(),
            final(self).docs() == old(self).docs().replaced(key, document),
            r is Some <==> old(self).docs().contains(key),
            r matches Some(d) ==> d == old(self).docs().value_of(key),
            final(rt)@ == if old(self).docs().contains(key) {
                old(rt)@.notified(old(self).documents_signal())
            } else {
                old(rt)@
            },
            final(rt)@.wf(),
    {
        if !self.documents.get_untracked().contains_key(key) {
            return None;
        }
        let docs = self.documents.update(rt);
        docs.replace(key, document)
    }

    /// Closes the document under `key` and returns it; `None`, with nothing
    /// changed, when `key` is stale or unknown. Tabs that show it keep its
    /// key, which from now on resolves to nothing.
    pub fn close_document(&mut self, rt: &mut Runtime, key: Key) -> (r: Option<DocumentEntity>)
        requires
            old(self).wf(),
            old(rt)@.wf(),
        ensures
            final(self).wf(),
            final(self).same_signals(old(self)),
            final(self).tab_list() == old(self).tab_list(),
            final(self).active() == old(self).active(),
            final(self).docs() == old(self).docs().removed(key),
            r is Some <==> old(self).docs().contains(key),
            r matches Some(d) ==> d == old(self).docs().value_of(key),
            final(rt)@ == if old(self).docs().contains(key) {
                old(rt)@.notified(old(self).documents_signal())
            } else {
                old(rt)@
            },
            final(rt)@.wf(),
    {
        if !self.documents.get_untracked().contains_key(key) {
            return None;
        }
        let docs = self.documents.update(rt);
        docs.remove(key)
    }

    /// Closes the tab under `key` and returns it; `None`, with nothing
    /// changed, when `key` is stale or unknown. Closing the active tab
    /// leaves no tab active.
    pub fn close_tab(&mut self, rt: &mut Runtime, key: Key) -> (r: Option<TabEntity>)
        requires
            old(self).wf(),
            old(rt)@.wf(),
        ensures
            final(self).wf(),
            final(self).same_signals(old(self)),
            final(self).docs() == old(self).docs(),
            final(self).tab_list() == old(self).tab_list().removed(key),
            r is Some <==> old(self).tab_list().contains(key),
            r matches Some(t) ==> t == old(self).tab_list().value_of(key),
            final(self).active() == if old(self).tab_list().contains(key) && old(self).active() == Some(key) {
                None
            } else {
                old(self).active()
            },
            final(rt)@ == if !old(self).tab_list().contains(key) {
                old(rt)@
            } else if old(self).active() == Some(key) {
                old(rt)@.notified(old(self).tabs_signal()).notified(old(self).active_signal())
            } else {
                old(rt)@.notified(old(self).tabs_signal())
            },
            final(rt)@.wf(),
    {
        if !self.tabs.get_untracked().contains_key(key) {
            return None;
        }
        let tabs = self.tabs.update(rt);
        let r = tabs.remove(key);
        let was_active = match self.active_tab.get_untracked() {
            Some(a) => a.id == key.id,
            None => false,
        };
        if was_active {
            self.active_tab.set(rt, None);
        }
        r
    }

    /// Makes `key` the active tab, or none. A key with no live tab is
    /// accepted; readers resolve it to no tab.
    pub fn set_active(&mut self, rt: &mut Runtime, key: Option<Key>)
        requires
            old(self).wf(),
            old(rt)@.wf(),
        ensures
            final(self).wf(),
            final(self).same_signals(old(self)),
            final(self).docs() == old(self).docs(),
            final(self).tab_list() == old(self).tab_list(),
            final(self).active() == key,
            final(rt)@ == old(rt)@.notified(old(self).active_signal()),
            final(rt)@.wf(),
    {
        self.active_tab.set(rt, key);
    }

    /// The active tab, or `None` when no tab is active or the active key is
    /// stale.
    pub fn active_tab_entity(&self) -> (r: Option<&TabEntity>)
        requires
            self.wf(),
        ensures
            r is Some <==> (self.active() matches Some(k) && self.tab_list().contains(k)),
            r matches Some(t) ==> *t == self.tab_list().value_of(self.active().unwrap()),
    {
        match self.active_tab.get_untracked() {
            Some(k) => self.tabs.get_untracked().get(*k),
            None => None,
        }
    }

    /// The document that the tab under `tab` shows, or `None` when the tab
    /// is gone, is a home tab, or shows a closed document.
    pub fn tab_document(&self, tab: Key) -> (r: Option<&DocumentEntity>)
        requires
            self.wf(),
        ensures
            r is Some <==> self.shown_document(tab) is Some,
            r matches Some(doc) ==> *doc == self.docs().value_of(self.shown_document(tab).unwrap()),
    {
        match self.tabs.get_untracked().get(tab) {
            Some(t) => match t.kind {
                TabKind::Document(d) => self.documents.get_untracked().get(d),
                TabKind::Home => None,
            },
            None => None,
        }
    }

}

} // verus!

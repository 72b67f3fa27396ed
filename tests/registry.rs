use reactive::arena::Key;
use reactive::registry::{
    document_kind, ApplicationState, DocumentEntity, ImageDocument, NewDocumentKind, OpenError,
    TabKind, TextDocument,
};
use reactive::runtime::Runtime;

#[test]
fn open_close_and_resolve_documents() {
    let mut rt = Runtime::new();
    let mut app = ApplicationState::new(&mut rt);
    assert_eq!(app.documents().get_untracked().len(), 0);
    let k1 = app.open_document(&mut rt, String::from("a.txt")).unwrap();
    let k2 = app.open_document(&mut rt, String::from("b.bmp")).unwrap();
    assert_ne!(k1, k2);
    assert!(app.close_document(&mut rt, k1).is_some());
    assert!(app.documents().get_untracked().get(k1).is_none());
    match app.documents().get_untracked().get(k2) {
        Some(DocumentEntity::Image(img)) => assert_eq!(img.path, "b.bmp"),
        _ => panic!("the bitmap document is gone"),
    }
}

#[test]
fn open_document_adds_an_active_tab() {
    let mut rt = Runtime::new();
    let mut app = ApplicationState::new(&mut rt);
    let d = app.open_document(&mut rt, String::from("notes.txt")).unwrap();
    let tab = app.active_tab_entity().unwrap();
    assert_eq!(tab.kind, TabKind::Document(d));
    assert_eq!(tab.name.get_untracked(), "notes.txt");
    let tk = app.active_tab().get_untracked().unwrap();
    match app.tab_document(tk) {
        Some(DocumentEntity::Text(t)) => assert_eq!(t.path, "notes.txt"),
        _ => panic!("the tab shows no text document"),
    }
}

#[test]
fn unsupported_path_is_refused() {
    let mut rt = Runtime::new();
    let mut app = ApplicationState::new(&mut rt);
    let e = rt.create_effect();
    app.documents().get(&mut rt);
    rt.finish_run();
    assert_eq!(
        app.open_document(&mut rt, String::from("song.mp3")),
        Err(OpenError::UnsupportedKind)
    );
    assert_eq!(app.documents().get_untracked().len(), 0);
    assert_eq!(app.tabs().get_untracked().len(), 0);
    assert_eq!(rt.pending_count(), 0);
    assert!(rt.is_dependent(e, app.documents().id()));
}

#[test]
fn document_kind_by_suffix() {
    assert_eq!(document_kind("a.txt"), Some(NewDocumentKind::Text));
    assert_eq!(document_kind("dir/pic.bmp"), Some(NewDocumentKind::Bitmap));
    assert_eq!(document_kind("a.TXT"), None);
    assert_eq!(document_kind("txt"), None);
    assert_eq!(document_kind("a.txt.gz"), None);
    assert_eq!(document_kind(""), None);
}

#[test]
fn structural_change_reruns_registry_readers() {
    let mut rt = Runtime::new();
    let mut app = ApplicationState::new(&mut rt);
    let docs_reader = rt.create_effect();
    app.documents().get(&mut rt);
    rt.finish_run();
    let active_reader = rt.create_effect();
    app.active_tab().get(&mut rt);
    rt.finish_run();
    app.open_document(&mut rt, String::from("x.bmp")).unwrap();
    assert_eq!(rt.pending_count(), 2);
    assert_eq!(rt.begin_next_run().unwrap(), Some(docs_reader));
    rt.finish_run();
    assert_eq!(rt.begin_next_run().unwrap(), Some(active_reader));
    rt.finish_run();
}

#[test]
fn closing_the_active_tab_clears_the_selection() {
    let mut rt = Runtime::new();
    let mut app = ApplicationState::new(&mut rt);
    let home = app.show_home_tab(&mut rt);
    let other = app.add_home_tab(&mut rt);
    assert_eq!(*app.active_tab().get_untracked(), Some(home));
    assert!(app.close_tab(&mut rt, other).is_some());
    assert_eq!(*app.active_tab().get_untracked(), Some(home));
    let closed = app.close_tab(&mut rt, home).unwrap();
    assert_eq!(closed.kind, TabKind::Home);
    assert_eq!(*app.active_tab().get_untracked(), None);
    assert!(app.close_tab(&mut rt, home).is_none());
}

#[test]
fn stale_active_tab_resolves_to_nothing() {
    let mut rt = Runtime::new();
    let mut app = ApplicationState::new(&mut rt);
    app.set_active(&mut rt, Some(Key { id: 42 }));
    assert!(app.active_tab_entity().is_none());
    let home = app.add_home_tab(&mut rt);
    assert!(app.tab_document(home).is_none());
    app.set_active(&mut rt, Some(home));
    assert_eq!(app.active_tab_entity().unwrap().name.get_untracked(), "Home");
    app.set_active(&mut rt, None);
    assert!(app.active_tab_entity().is_none());
}

#[test]
fn tab_of_closed_document_resolves_to_nothing() {
    let mut rt = Runtime::new();
    let mut app = ApplicationState::new(&mut rt);
    let d = app.open_document(&mut rt, String::from("a.txt")).unwrap();
    let tk = app.active_tab().get_untracked().unwrap();
    app.close_document(&mut rt, d);
    assert!(app.tab_document(tk).is_none());
    assert_eq!(app.tabs().get_untracked().get(tk).unwrap().kind, TabKind::Document(d));
    assert!(app.close_document(&mut rt, d).is_none());
}

#[test]
fn form_is_replaced_in_place() {
    let mut rt = Runtime::new();
    let mut app = ApplicationState::new(&mut rt);
    let k = app.new_document_form(&mut rt);
    match app.documents().get_untracked().get(k) {
        Some(DocumentEntity::PendingForm(f)) => {
            assert_eq!(*f.kind.get_untracked(), NewDocumentKind::Text);
            assert!(f.name.get_untracked().is_empty());
            assert!(f.directory.get_untracked().is_empty());
        }
        _ => panic!("no pending form"),
    }
    let tk = app.active_tab().get_untracked().unwrap();
    assert_eq!(app.active_tab_entity().unwrap().name.get_untracked(), "New document");
    let done = DocumentEntity::Text(TextDocument { path: String::from("/tmp/new.txt") });
    assert!(matches!(
        app.replace_document(&mut rt, k, done),
        Some(DocumentEntity::PendingForm(_))
    ));
    match app.tab_document(tk) {
        Some(DocumentEntity::Text(t)) => assert_eq!(t.path, "/tmp/new.txt"),
        _ => panic!("the form was not replaced"),
    }
    let stale = DocumentEntity::Image(ImageDocument { path: String::new(), coordinate: None });
    assert!(app.replace_document(&mut rt, Key { id: 77 }, stale).is_none());
}

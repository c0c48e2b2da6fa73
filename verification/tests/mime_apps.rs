//! Reading, changing and saving a `mimeapps.list`.
use handlr::config_file::ConfigFile;
use handlr::desktop_entry::DesktopEntry;
use handlr::desktop_list::{DesktopHandler, DesktopList};
use handlr::error::Error;
use handlr::media_type::Mime;
use handlr::mime_apps::MimeApps;
use handlr::resolve::Resolution;

const NO_ADDED: &str = "[Default Applications]\n\
    image/png=feh.desktop;\n\
    text/*=nvim.desktop;\n\
    text/html=firefox.desktop;chromium.desktop;\n";

const NO_DEFAULT: &str = "[Added Associations]\n\
    image/png=feh.desktop;gimp.desktop;\n\
    text/html=firefox.desktop;\n";

const SORTED: &str = "[Added Associations]\n\
    application/pdf=org.pwmt.zathura.desktop;firefox.desktop;\n\
    [Default Applications]\n\
    application/pdf=org.pwmt.zathura.desktop;\n\
    image/png=feh.desktop;gimp.desktop;\n\
    text/html=firefox.desktop;nvim.desktop;\n";

const ANOMALOUS_SEMICOLONS: &str = "[Added Associations]\n\
    application/pdf=;org.pwmt.zathura.desktop;;firefox.desktop;;;\n\
    [Default Applications]\n\
    application/pdf=org.pwmt.zathura.desktop\n\
    image/png=;;feh.desktop;;gimp.desktop\n\
    text/html=;firefox.desktop;nvim.desktop\n";

const EMPTY_ENTRY: &str = "[Default Applications]\n\
    image/png=feh.desktop;\n\
    text/*=nvim.desktop;\n\
    text/html=firefox.desktop;chromium.desktop;\n\
    text/plain=\n";

const DUPLICATE: &str = "[Default Applications]\n\
    image/png=feh.desktop;feh.desktop;\n\
    text/*=nvim.desktop;nvim.desktop;nvim.desktop;\n\
    text/html=firefox.desktop;chromium.desktop;firefox.desktop;\n";

fn known_mime_types() -> Vec<String> {
    [
        "application/pdf",
        "application/vnd.oasis.opendocument.spreadsheet",
        "application/vnd.oasis.opendocument.text",
        "image/png",
        "text/css",
        "text/html",
        "text/plain",
        "video/mp4",
        "video/mpeg",
    ]
    .map(String::from)
    .to_vec()
}

fn mime(text: &str) -> Mime {
    Mime::from_str(text).unwrap()
}

fn handler(name: &str) -> DesktopHandler {
    DesktopHandler::assume_valid(name.into())
}

fn mimeapps_round_trip(input: &str, expected: &str, mutation: fn(&mut MimeApps)) {
    let mut mime_apps = MimeApps::read_from(input).unwrap();
    mutation(&mut mime_apps);
    assert_eq!(mime_apps.save_to(), expected);
}

fn noop(_: &mut MimeApps) {}

fn mimeapps_round_trip_simple(text: &str) {
    mimeapps_round_trip(text, text, noop)
}

/// The handler that opens a MIME type, if every desktop entry can be read.
fn chosen(mime_apps: &MimeApps, mime: &Mime) -> Result<String, Error> {
    let loaded = match mime_apps.configured_handlers(mime) {
        Some(list) => vec![Some(DesktopEntry::fake_entry("true", false)); list.len()],
        None => vec![],
    };
    let config_file = ConfigFile::default();
    match mime_apps.get_handler_from_user(mime, None, &config_file, &vec![], &loaded)? {
        Resolution::Handler(handler) => Ok(handler.as_str().to_string()),
        Resolution::Select { .. } => panic!("the selector is disabled"),
    }
}

#[test]
fn mimeapps_no_added_round_trip() {
    mimeapps_round_trip_simple(NO_ADDED)
}

#[test]
fn mimeapps_no_default_round_trip() {
    mimeapps_round_trip_simple(NO_DEFAULT)
}

#[test]
fn mimeapps_sorted_round_trip() {
    mimeapps_round_trip_simple(SORTED)
}

#[test]
fn mimeapps_anomalous_semicolons_round_trip() {
    mimeapps_round_trip(ANOMALOUS_SEMICOLONS, SORTED, noop)
}

#[test]
fn mimeapps_empty_entry_round_trip() {
    mimeapps_round_trip(EMPTY_ENTRY, NO_ADDED, noop)
}

#[test]
fn mimeapps_empty_entry_fallback() {
    let mime_apps = MimeApps::read_from(EMPTY_ENTRY).unwrap();
    assert_eq!(chosen(&mime_apps, &mime("text/plain")).unwrap(), "nvim.desktop");
}

// This is mainly to check that "empty" entries don't get mixed in and complicate things.
#[test]
fn mimeapps_round_trip_with_deletion_and_re_addition() {
    fn remove_and_re_add(mime_apps: &mut MimeApps) {
        mime_apps.remove_handler(
            &mime("text/html"),
            &DesktopHandler::from_str("nvim.desktop").unwrap(),
        );
        mime_apps
            .add_handler(
                &mime("text/html"),
                &DesktopHandler::from_str("nvim.desktop").unwrap(),
                false,
                &known_mime_types(),
            )
            .unwrap();
    }

    mimeapps_round_trip(SORTED, SORTED, remove_and_re_add)
}

#[test]
fn mimeapps_duplicate_round_trip() {
    mimeapps_round_trip(DUPLICATE, NO_ADDED, noop)
}

#[test]
fn set_handlers_expand_wildcards() {
    let types = known_mime_types();
    let mut mime_apps = MimeApps::default();

    mime_apps.set_handler(&mime("text/*"), &handler("Helix.desktop"), true, &types).unwrap();

    mime_apps
        .set_handler(
            &mime("application/vnd.oasis.opendocument.*"),
            &handler("startcenter.desktop"),
            true,
            &types,
        )
        .unwrap();

    // This should only add video/mp4
    mime_apps.set_handler(&mime("video/mp4"), &handler("mpv.desktop"), true, &types).unwrap();

    assert_eq!(
        mime_apps.save_to(),
        "[Default Applications]\n\
        application/vnd.oasis.opendocument.spreadsheet=startcenter.desktop;\n\
        application/vnd.oasis.opendocument.text=startcenter.desktop;\n\
        text/css=Helix.desktop;\n\
        text/html=Helix.desktop;\n\
        text/plain=Helix.desktop;\n\
        video/mp4=mpv.desktop;\n"
    );
}

#[test]
fn add_handlers_expand_wildcards() {
    let types = known_mime_types();
    let mut mime_apps = MimeApps::default();

    mime_apps.add_handler(&mime("text/*"), &handler("Helix.desktop"), true, &types).unwrap();

    mime_apps
        .add_handler(
            &mime("application/vnd.oasis.opendocument.*"),
            &handler("startcenter.desktop"),
            true,
            &types,
        )
        .unwrap();

    mime_apps.add_handler(&mime("text/*"), &handler("nvim.desktop"), true, &types).unwrap();

    // This should only add video/mp4
    mime_apps.add_handler(&mime("video/mp4"), &handler("mpv.desktop"), true, &types).unwrap();

    assert_eq!(
        mime_apps.save_to(),
        "[Default Applications]\n\
        application/vnd.oasis.opendocument.spreadsheet=startcenter.desktop;\n\
        application/vnd.oasis.opendocument.text=startcenter.desktop;\n\
        text/css=Helix.desktop;nvim.desktop;\n\
        text/html=Helix.desktop;nvim.desktop;\n\
        text/plain=Helix.desktop;nvim.desktop;\n\
        video/mp4=mpv.desktop;\n"
    );
}

#[test]
fn unset_handlers_expand_wildcards() {
    let types = known_mime_types();
    let mut mime_apps = MimeApps::default();

    // Just add text/*
    mime_apps.set_handler(&mime("text/*"), &handler("Helix.desktop"), false, &types).unwrap();

    // Add all the non-wildcard text mimes
    mime_apps.set_handler(&mime("text/*"), &handler("Helix.desktop"), true, &types).unwrap();

    // text/* should still be present
    assert!(mime_apps.default_apps.contains_key(&mime("text/*")));

    mime_apps.unset_handler(&mime("text/*"));

    // Only text/* should be removed first
    assert_eq!(
        mime_apps.save_to(),
        "[Default Applications]\n\
        text/css=Helix.desktop;\n\
        text/html=Helix.desktop;\n\
        text/plain=Helix.desktop;\n"
    );

    mime_apps.unset_handler(&mime("text/*"));

    // Now that text/* isn't literally present, remove the rest of the text mimes
    assert!(mime_apps.default_apps.is_empty());
}

#[test]
fn remove_handlers_expand_wildcards() {
    let types = known_mime_types();
    let mut mime_apps = MimeApps::default();

    // Just add text/*
    mime_apps.add_handler(&mime("text/*"), &handler("Helix.desktop"), false, &types).unwrap();
    mime_apps.add_handler(&mime("text/*"), &handler("nvim.desktop"), false, &types).unwrap();

    // Add all the non-wildcard text mimes
    mime_apps.add_handler(&mime("text/*"), &handler("Helix.desktop"), true, &types).unwrap();
    mime_apps.add_handler(&mime("text/*"), &handler("nvim.desktop"), true, &types).unwrap();

    // Only remove from text/*
    mime_apps.remove_handler(&mime("text/*"), &handler("Helix.desktop"));

    assert_eq!(
        mime_apps.default_apps.get(&mime("text/*")),
        Some(&DesktopList::single(handler("nvim.desktop")))
    );

    // Remove from the rest of the text mimes
    mime_apps.remove_handler(&mime("text/*"), &handler("Helix.desktop"));

    assert_eq!(
        mime_apps.save_to(),
        "[Default Applications]\n\
        text/*=nvim.desktop;\n\
        text/css=nvim.desktop;\n\
        text/html=nvim.desktop;\n\
        text/plain=nvim.desktop;\n"
    );
}

#[test]
fn an_empty_file_has_no_associations() {
    let mut mime_apps = MimeApps::read_from("").unwrap();
    assert!(mime_apps.default_apps.is_empty());
    assert!(mime_apps.added_associations.is_empty());
    assert_eq!(mime_apps.save_to(), "");
}

#[test]
fn associations_are_saved_in_order() {
    mimeapps_round_trip(
        "[Default Applications]\n\
        text/plain=b.desktop;a.desktop\n\
        application/pdf=c.desktop\n\
        [Added Associations]\n\
        text/html=d.desktop\n",
        "[Added Associations]\n\
        text/html=d.desktop;\n\
        [Default Applications]\n\
        application/pdf=c.desktop;\n\
        text/plain=b.desktop;a.desktop;\n",
        noop,
    )
}

#[test]
fn the_last_value_of_a_mime_type_counts() {
    mimeapps_round_trip(
        "[Default Applications]\ntext/html=a.desktop;\ntext/html=b.desktop;\n",
        "[Default Applications]\ntext/html=b.desktop;\n",
        noop,
    )
}

#[test]
fn comments_empty_lines_and_other_sections_are_passed_over() {
    mimeapps_round_trip(
        "# written by hand\r\n\
        \r\n\
        [Removed Associations]\r\n\
        whatever=a.desktop\r\n\
        [Default Applications]\r\n\
        ; the browser\r\n\
        text/html = a.desktop; \r\n",
        "[Default Applications]\ntext/html=a.desktop;\n",
        noop,
    )
}

#[test]
fn an_added_association_without_handlers_is_kept() {
    mimeapps_round_trip(
        "[Added Associations]\ntext/html=\n[Default Applications]\ntext/plain=;;\n",
        "[Added Associations]\ntext/html=;\n",
        noop,
    )
}

#[test]
fn mime_types_are_spelled_in_lower_case() {
    mimeapps_round_trip(
        "[Default Applications]\nTEXT/HTML=a.desktop;\n",
        "[Default Applications]\ntext/html=a.desktop;\n",
        noop,
    )
}

#[test]
fn what_is_no_mime_apps_list_is_refused() {
    for text in [
        "[Default Applications\n",
        "[Default] Applications]\n",
        "just text\n",
        "[Default Applications]\nno mime type=a.desktop\n",
        "[Added Associations]\n=a.desktop\n",
        "[Default Applications]\n[Default Applications]\n",
        "Default Applications=a.desktop\n",
    ] {
        assert_eq!(MimeApps::read_from(text).err(), Some(Error::BadMimeApps), "{text}");
    }
}

#[test]
fn a_bad_mime_type_stops_the_expansion() {
    let types: Vec<String> = ["text/css", "text/a b", "text/html"].map(String::from).to_vec();

    let mut mime_apps = MimeApps::default();
    assert_eq!(
        mime_apps.set_handler(&mime("text/*"), &handler("a.desktop"), true, &types),
        Err(Error::BadMime("text/a b".to_string()))
    );
    assert_eq!(mime_apps.save_to(), "[Default Applications]\ntext/css=a.desktop;\n");

    let mut mime_apps = MimeApps::default();
    assert_eq!(
        mime_apps.add_handler(&mime("text/*"), &handler("a.desktop"), true, &types),
        Err(Error::BadMime("text/a b".to_string()))
    );
    assert_eq!(mime_apps.save_to(), "[Default Applications]\ntext/css=a.desktop;\n");
}

#[test]
fn setting_overwrites_and_adding_appends() {
    let types = known_mime_types();
    let mut mime_apps = MimeApps::read_from(NO_ADDED).unwrap();

    mime_apps.add_handler(&mime("image/png"), &handler("gimp.desktop"), false, &types).unwrap();
    mime_apps.set_handler(&mime("text/html"), &handler("nvim.desktop"), false, &types).unwrap();

    assert_eq!(
        mime_apps.save_to(),
        "[Default Applications]\n\
        image/png=feh.desktop;gimp.desktop;\n\
        text/*=nvim.desktop;\n\
        text/html=nvim.desktop;\n"
    );
}

#[test]
fn adding_does_not_look_for_duplicates() {
    let types = known_mime_types();
    let mut mime_apps = MimeApps::default();
    mime_apps.add_handler(&mime("image/png"), &handler("feh.desktop"), false, &types).unwrap();
    mime_apps.add_handler(&mime("image/png"), &handler("feh.desktop"), false, &types).unwrap();
    assert_eq!(
        mime_apps.save_to(),
        "[Default Applications]\nimage/png=feh.desktop;feh.desktop;\n"
    );

    // Only the first one is removed
    mime_apps.remove_handler(&mime("image/png"), &handler("feh.desktop"));
    assert_eq!(mime_apps.save_to(), "[Default Applications]\nimage/png=feh.desktop;\n");
}

#[test]
fn removing_an_unknown_handler_leaves_no_trace() {
    let mut mime_apps = MimeApps::read_from(NO_ADDED).unwrap();
    mime_apps.remove_handler(&mime("video/mp4"), &handler("feh.desktop"));
    // The association has no handlers, and goes when it is saved
    assert!(mime_apps.default_apps.contains_key(&mime("video/mp4")));
    assert_eq!(mime_apps.save_to(), NO_ADDED);
    assert!(!mime_apps.default_apps.contains_key(&mime("video/mp4")));
}

#[test]
fn unsetting_leaves_the_rest_alone() {
    let mut mime_apps = MimeApps::read_from(NO_ADDED).unwrap();
    mime_apps.unset_handler(&mime("image/*"));
    assert_eq!(
        mime_apps.save_to(),
        "[Default Applications]\n\
        text/*=nvim.desktop;\n\
        text/html=firefox.desktop;chromium.desktop;\n"
    );
    mime_apps.unset_handler(&mime("text/*"));
    assert_eq!(
        mime_apps.save_to(),
        "[Default Applications]\ntext/html=firefox.desktop;chromium.desktop;\n"
    );
}

#[test]
fn the_exact_match_is_preferred() {
    let mime_apps = MimeApps::read_from(NO_ADDED).unwrap();
    assert_eq!(chosen(&mime_apps, &mime("text/html")).unwrap(), "firefox.desktop");
    assert_eq!(chosen(&mime_apps, &mime("text/css")).unwrap(), "nvim.desktop");
    assert_eq!(
        chosen(&mime_apps, &mime("image/jpeg")),
        Err(Error::NotFound("image/jpeg".to_string()))
    );
}

#[test]
fn the_longest_wildcard_is_preferred() {
    let mime_apps = MimeApps::read_from(
        "[Default Applications]\n\
        */*=any.desktop;\n\
        application/*=application.desktop;\n\
        application/vnd.oasis.*=office.desktop;\n",
    )
    .unwrap();
    let found = |text: &str| mime_apps.get_from_wildcard(&mime(text)).unwrap().to_text();
    assert_eq!(found("application/vnd.oasis.opendocument.spreadsheet"), "office.desktop;");
    assert_eq!(found("application/pdf"), "application.desktop;");
    assert_eq!(found("text/html"), "any.desktop;");
}

#[test]
fn the_first_of_equally_long_wildcards_is_preferred() {
    let mime_apps = MimeApps::read_from(
        "[Default Applications]\ntext/htm*=b.desktop;\ntext/*tml=a.desktop;\n",
    )
    .unwrap();
    // In the order of the MIME types `text/*tml` is the first
    assert_eq!(
        mime_apps.get_from_wildcard(&mime("text/html")).unwrap().to_text(),
        "a.desktop;"
    );
}

#[test]
fn lists_of_handlers_read_back() {
    let list = DesktopList::from_str(";a.desktop;;b.desktop;a.desktop;").unwrap();
    assert_eq!(list.len(), 2);
    assert_eq!(list.at(0).as_str(), "a.desktop");
    assert_eq!(list.at(1).as_str(), "b.desktop");
    assert_eq!(list.to_text(), "a.desktop;b.desktop;");
    assert_eq!(DesktopList::from_str(&list.to_text()).unwrap(), list);

    assert!(DesktopList::from_str("").unwrap().is_empty());
    assert_eq!(DesktopList::from_str("").unwrap().to_text(), ";");
}

#[test]
fn handler_changes_are_reported() {
    let mut mime_apps = MimeApps::read_from(NO_ADDED).unwrap();
    assert_eq!(
        mime_apps.log_handler_change(&mime("text/html")),
        "New handlers for `text/html`: firefox.desktop;chromium.desktop;"
    );
    assert_eq!(
        mime_apps.log_handler_change(&mime("video/mp4")),
        "New handlers for `video/mp4`: <None>"
    );
    mime_apps.remove_handler(&mime("image/png"), &handler("feh.desktop"));
    assert_eq!(
        mime_apps.log_handler_change(&mime("image/png")),
        "New handlers for `image/png`: <None>"
    );
}

#[test]
fn mime_types_are_checked() {
    assert_eq!(mime("Text/HTML").as_str(), "text/html");
    assert_eq!(Mime::from_str("text").err(), Some(Error::BadMime("text".to_string())));
    assert_eq!(Mime::from_str("").err(), Some(Error::BadMime(String::new())));
}

#[test]
fn a_copy_holds_the_same_associations() {
    let mut mime_apps = MimeApps::read_from(SORTED).unwrap();
    let mut copy = mime_apps.clone();
    copy.unset_handler(&mime("text/html"));
    assert_eq!(mime_apps.save_to(), SORTED);
    assert_ne!(copy.save_to(), SORTED);
}

#[test]
fn unsetting_undoes_setting() {
    let types = known_mime_types();
    let mut mime_apps = MimeApps::read_from(SORTED).unwrap();
    mime_apps.set_handler(&mime("video/mp4"), &handler("mpv.desktop"), false, &types).unwrap();
    assert_eq!(chosen(&mime_apps, &mime("video/mp4")).unwrap(), "mpv.desktop");
    mime_apps.unset_handler(&mime("video/mp4"));
    assert_eq!(mime_apps.save_to(), SORTED);
}

#[test]
fn removing_undoes_adding() {
    let types = known_mime_types();
    let mut mime_apps = MimeApps::read_from(SORTED).unwrap();
    mime_apps.add_handler(&mime("image/png"), &handler("nvim.desktop"), false, &types).unwrap();
    assert_ne!(mime_apps.clone().save_to(), SORTED);
    mime_apps.remove_handler(&mime("image/png"), &handler("nvim.desktop"));
    assert_eq!(mime_apps.save_to(), SORTED);
}

#[test]
fn removing_undoes_adding_a_first_handler() {
    let types = known_mime_types();
    let mut mime_apps = MimeApps::read_from(SORTED).unwrap();
    mime_apps.add_handler(&mime("video/mp4"), &handler("mpv.desktop"), false, &types).unwrap();
    mime_apps.remove_handler(&mime("video/mp4"), &handler("mpv.desktop"));
    // What is left is an association without handlers
    assert!(mime_apps.default_apps.get(&mime("video/mp4")).unwrap().is_empty());
    assert_eq!(mime_apps.save_to(), SORTED);
}

#[test]
fn what_was_saved_stays_as_it_is() {
    for text in [ANOMALOUS_SEMICOLONS, EMPTY_ENTRY, DUPLICATE, NO_DEFAULT] {
        let once = MimeApps::read_from(text).unwrap().save_to();
        let twice = MimeApps::read_from(&once).unwrap().save_to();
        assert_eq!(once, twice);
    }
}

#[test]
fn some_associations_do_not_read_back() {
    let types = known_mime_types();
    // The line would be a comment
    let mut mime_apps = MimeApps::default();
    mime_apps.set_handler(&mime("#a/b"), &handler("a.desktop"), false, &types).unwrap();
    let text = mime_apps.save_to();
    assert_eq!(text, "[Default Applications]\n#a/b=a.desktop;\n");
    assert!(MimeApps::read_from(&text).unwrap().default_apps.is_empty());

    // A semicolon separates handlers
    let mut mime_apps = MimeApps::default();
    mime_apps.set_handler(&mime("text/html"), &handler("a;b"), false, &types).unwrap();
    let mut again = MimeApps::read_from(&mime_apps.save_to()).unwrap();
    assert_eq!(again.default_apps.get(&mime("text/html")).unwrap().len(), 2);
    assert_eq!(again.save_to(), mime_apps.save_to());
}

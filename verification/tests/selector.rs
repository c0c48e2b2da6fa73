//! Templates, and the selector that they are for.
use handlr::config_file::{any_found, ConfigFile, RegexApps, RegexHandler, SelectorArgs};
use handlr::desktop_entry::{DesktopEntry, EntryPath};
use handlr::error::Error;
use handlr::media_type::Mime;
use handlr::mime_apps::MimeApps;
use handlr::report::format_cmd;
use handlr::resolve::Resolution;
use handlr::selector::{
    ask_for_handler, get_handler_from_selector, guess_matching_entry, select, selector_request,
    Candidate,
};
use handlr::desktop_list::DesktopHandler;
use handlr::template::{format_item, format_selector};
use handlr::user_path::UserPath;

const FIREFOX: &str = "[Desktop Entry]
Version=1.0
Type=Application
Name=Firefox
GenericName=Web Browser
Comment=Fast and private browser
Comment[de]=Schneller und privater Browser
Comment[fr]=Navigateur rapide et privé
Exec=firefox %u
Icon=org.mozilla.firefox
Terminal=false
X-GNOME-FullName=Firefox Web Browser
MimeType=text/html;x-scheme-handler/http;x-scheme-handler/https;
";

fn browser(file_name: &str, name: &str, generic_name: &str, icon: &str) -> DesktopEntry {
    parse(
        file_name,
        &format!(
            "[Desktop Entry]\nName={name}\nGenericName={generic_name}\nExec=true %u\nIcon={icon}\n"
        ),
    )
}

fn parse(file_name: &str, text: &str) -> DesktopEntry {
    let path = EntryPath {
        path: format!("./tests/assets/https/{file_name}"),
        file_name: Some(file_name.to_string()),
    };
    DesktopEntry::parse_file(&path, text.as_bytes(), &vec![]).unwrap()
}

fn firefox() -> DesktopEntry {
    parse("org.mozilla.firefox.desktop", FIREFOX)
}

fn browsers() -> Vec<DesktopEntry> {
    vec![
        firefox(),
        browser(
            "org.mozilla.firefox.private.desktop",
            "Firefox (private)",
            "Web Browser",
            "org.mozilla.firefox",
        ),
        browser("com.vivaldi.Vivaldi.desktop", "Vivaldi", "Web Browser", "vivaldi"),
        browser(
            "com.vivaldi.Vivaldi.private.desktop",
            "Vivaldi (private)",
            "Web Browser",
            "vivaldi",
        ),
        browser("copy-to-clipboard.desktop", "Copy to clipboard", "Clipboard", "edit-copy"),
    ]
}

fn https() -> Mime {
    Mime::from_str("x-scheme-handler/https").unwrap()
}

#[test]
fn formatting_selector() {
    let mime = https();
    let url = "https://specifications.freedesktop.org/desktop-entry/latest/";
    let path = UserPath::new(url.to_string());

    let actual = format_selector("rofi -dmenu -show-icons -i -p 'Open With: ' -mesg 'Open {%Path}\n\t({%Mime})'", &mime, Some(&path));
    let expected = format!("rofi -dmenu -show-icons -i -p 'Open With: ' -mesg 'Open {url}\n\t({mime})'", mime = mime.as_str());
    assert_eq!(actual, expected);

    let actual = format_selector("rofi -dmenu -show-icons -i -p 'Open With: ' -mesg 'Open {%Path}\n\t({%Mime})'", &mime, None);
    let expected = format!("rofi -dmenu -show-icons -i -p 'Open With: ' -mesg 'Open {url}\n\t({mime})'", url = "", mime = mime.as_str());
    assert_eq!(actual, expected);

    let actual = format_selector(
        "UserPath: {%u} {%f} {%U} {%F} {%Path} {%Url}; Mime: {%Mime}",
        &mime,
        Some(&path),
    );
    let expected = format!(
        "UserPath: {url} {url} {url} {url} {url} {url}; Mime: {mime}",
        mime = mime.as_str()
    );
    assert_eq!(actual, expected);

    let actual = format_selector("{%Path} {{%Path} {Path} {%Path}", &mime, Some(&path));
    let expected = format!("{url} {{%Path}} {{Path}} {url}");
    assert_eq!(actual, expected);

    let actual = format_selector("{Foo}", &mime, Some(&path));
    let expected = "{Foo}";
    assert_eq!(actual, expected);
}

#[test]
fn formatting_item() {
    let mime = https();
    let url = "https://specifications.freedesktop.org/desktop-entry/latest/";
    let path = UserPath::new(url.to_string());
    let entry = firefox();
    let index = 2;
    let format = |item_format: &str, languages: &[&str]| {
        let languages = languages.iter().map(|s| s.to_string()).collect();
        format_item(item_format, &mime, Some(&path), &entry, index, &languages)
    };

    let actual = format("{Name}", &[]);
    let expected = format!("{name}", name = entry.name);
    assert_eq!(actual, expected);

    // {Name}\0icon\x1f{Icon}
    //   but in TOML: cannot use `\0` -> must use one of the Unicode formats (`\x00, \u0000, \U00000000`)
    let actual = format(r"{Name}\x00icon\x1f{Icon}", &[]);
    let expected = format!(
        r"{name}\x00icon\x1f{icon}",
        name = entry.name,
        icon = entry.get_first("Icon").unwrap()
    );
    assert_eq!(actual, expected);

    let actual = format("{%Index}", &[]);
    let expected = format!("{index}");
    assert_eq!(actual, expected);

    let actual = format("{%Index1}", &[]);
    let expected = format!("{index}", index = index + 1);
    assert_eq!(actual, expected);

    let actual = format("{Name} {GenericName} {Comment} {Icon} {X-GNOME-FullName}", &[]);
    let expected = [
        entry.get_first("Name").unwrap(),
        entry.get_first("GenericName").unwrap(),
        entry.get_first("Comment").unwrap(),
        entry.get_first("Icon").unwrap(),
        entry.get_first("X-GNOME-FullName").unwrap(),
    ]
    .join(" ");
    assert_eq!(actual, expected);

    // Index in rofi: `-format i`: 0-based, `-format d`: 1-based
    let actual = format("{%FileName} {%Url} {%Path} {%Index} {%Index0} {%Index1}", &[]);
    let expected = format!(
        "{file_name} {path} {path} {index0} {index0} {index1}",
        file_name = entry.file_name.as_deref().unwrap(),
        path = url,
        index0 = index,
        index1 = (index + 1)
    );
    assert_eq!(actual, expected);

    let actual = format("{Name} {{Name} {{Name}} {{foo {Name} bar {{{{Name}}}}", &[]);
    let expected = [
        entry.name.as_str(),
        "{Name}",
        "{Name}}",
        "{foo",
        entry.name.as_str(),
        "bar",
        "{{Name}}}}",
    ]
    .join(" ");
    assert_eq!(actual, expected);

    // different languages
    assert_eq!(format("{Comment}", &["de"]), "Schneller und privater Browser");

    // fall back to unlocalized
    assert_eq!(format("{Comment}", &["foo"]), "Fast and private browser");

    // both exist -> use first
    assert_eq!(format("{Comment}", &["de", "fr"]), "Schneller und privater Browser");

    // 2nd exist -> use 2nd
    assert_eq!(format("{Comment}", &["foo", "fr"]), "Navigateur rapide et privé");
}

#[test]
fn match_entry_to_output() {
    let langs = vec![];
    let entries = browsers();
    let mime = https();
    let path = UserPath::new("https://github.com/Anomalocaridid/handlr-regex".to_string());

    let assert_entry = |item_format: &str, output: &str, expected: Option<&DesktopEntry>| {
        let items: Vec<(&DesktopEntry, String)> = entries
            .iter()
            .enumerate()
            .map(|(i, entry)| {
                let item = format_item(item_format, &mime, Some(&path), entry, i, &langs);
                (entry, item)
            })
            .collect();

        let actual = guess_matching_entry(&items, output);
        assert_eq!(
            actual.ok(),
            expected,
            "item_format='{}', output='{}', items={:?}",
            item_format,
            output,
            items.iter().map(|(_, item)| item).collect::<Vec<_>>()
        );
    };

    let name = "Vivaldi (private)";
    let entry = entries.iter().find(|e| e.name == name).unwrap();
    let name_generic = format!(
        "{} {}",
        name,
        entry.get_first_with_language("GenericName", &langs).unwrap()
    );

    assert_entry("{Name}", name, Some(entry));
    assert_entry("{Name}", &name_generic, None);
    assert_entry("{Name} {GenericName}", &name_generic, Some(entry));
    assert_entry("{Name}\0icon\x1f{Icon}", name, Some(entry));
    assert_entry("{Name}\x00icon\x1f{Icon}", name, Some(entry));
    assert_entry("{Name}\0icon\x1f{Icon}", &name_generic, None);
    assert_entry("{Name}\x00icon\x1f{Icon}", &name_generic, None);
    assert_entry("{Name} {GenericName}\0icon\x1f{Icon}", name, Some(entry));
    assert_entry("{Name} {GenericName}\x00icon\x1f{Icon}", name, Some(entry));
    assert_entry("{Name} {GenericName}\0icon\x1f%icon", &name_generic, Some(entry));

    let idx = entries.iter().position(|e| e.name == name).unwrap();
    assert_entry(r"{%Index0}", &format!("{}", idx), Some(entry));
    assert_entry(r"{%Index1}", &format!("{}", idx + 1), Some(entry));

    assert_entry("{Name}", "", None);
    assert_entry("{Name}", "FooBar", None);
}

#[test]
fn other_braces_stay() {
    let mime = https();
    let format = |template: &str| format_selector(template, &mime, None);
    for template in ["", "{", "}", "{}", "{ %Mime }", "{%}", "{%%Mime}", "{%Mime", "{a b}"] {
        assert_eq!(format(template), template);
    }
    assert_eq!(format("{{%Mime}}"), "{%Mime}}");
    assert_eq!(format("{{{%Mime}"), "{x-scheme-handler/https");
    assert_eq!(format("{x{%Mime}"), "{xx-scheme-handler/https");
    assert_eq!(format("{é-1}{%Mime}"), "{é-1}x-scheme-handler/https");
}

#[test]
fn the_name_is_localized_like_every_key() {
    let mime = Mime::from_str("text/plain").unwrap();
    let entry = parse(
        "vlc.desktop",
        "[Desktop Entry]\nName=VLC media player\nName[de]=VLC Media Player\nExec=vlc\n",
    );
    let format = |languages: &[&str]| {
        let languages = languages.iter().map(|s| s.to_string()).collect();
        format_item("{Name}", &mime, None, &entry, 0, &languages)
    };
    assert_eq!(entry.name, "VLC media player");
    assert_eq!(format(&["de"]), "VLC Media Player");
    assert_eq!(format(&["it", "de"]), "VLC Media Player");
    assert_eq!(format(&["it"]), "VLC media player");
    assert_eq!(format(&[]), "VLC media player");

    // Without a file there is only the name of the entry
    let made_up = DesktopEntry { name: "x".to_string(), ..DesktopEntry::fake_entry("a", false) };
    assert_eq!(format_item("{Name}", &mime, None, &made_up, 0, &vec!["de".to_string()]), "x");
}

#[test]
fn path_and_mime_placeholders_mean_the_same_in_both_templates() {
    let mime = https();
    let entry = firefox();
    let path = UserPath::new("https://github.com".to_string());
    let template = "a {{%Path} {%Path}{%Url} {%u}-{%U} {%f}/{%F} ({%Mime}) {{ } {";
    for path in [Some(&path), None] {
        let selector = format_selector(template, &mime, path);
        for index in [0, 7] {
            let languages = vec!["de".to_string()];
            assert_eq!(
                format_item(template, &mime, path, &entry, index, &languages),
                selector
            );
        }
    }
    assert_eq!(
        format_selector(template, &mime, None),
        "a {%Path}  - / (x-scheme-handler/https) { } {"
    );
}

#[test]
fn unknown_item_placeholders() {
    let mime = https();
    let entry = firefox();
    let format = |template: &str| format_item(template, &mime, None, &entry, 0, &vec![]);
    // A key that the file does not have stands for nothing
    assert_eq!(format("[{NoSuchKey}]"), "[]");
    // The name is left without its braces
    assert_eq!(format("[{%NoSuchName}]"), "[%NoSuchName]");
    assert_eq!(format("{%Mime} {%Path}."), "x-scheme-handler/https .");
}

#[test]
fn long_indices_are_written_out() {
    let mime = https();
    let entry = DesktopEntry::fake_entry("true", false);
    let format = |index: usize| format_item("{%i}/{%d}", &mime, None, &entry, index, &vec![]);
    assert_eq!(format(9), "9/10");
    assert_eq!(format(99), "99/100");
    assert_eq!(format(1204), "1204/1205");
}

#[test]
fn a_file_name_that_is_not_unicode_stands_for_nothing() {
    let mime = https();
    let mut entry = firefox();
    entry.file_name = None;
    assert_eq!(format_item("[{%FileName}]", &mime, None, &entry, 0, &vec![]), "[]");
}

#[test]
fn the_line_is_preferred_to_the_name_and_the_name_to_the_visible_part() {
    let a = DesktopEntry { name: "x".to_string(), ..DesktopEntry::fake_entry("a", false) };
    let b = DesktopEntry { name: "y".to_string(), ..DesktopEntry::fake_entry("b", false) };
    let c = DesktopEntry { name: "z".to_string(), ..DesktopEntry::fake_entry("c", false) };
    let items = vec![
        (&a, "y\u{1f}icon".to_string()),
        (&b, "w\u{85}icon".to_string()),
        (&c, "x".to_string()),
    ];
    assert_eq!(guess_matching_entry(&items, "x").unwrap().command, "c");
    assert_eq!(guess_matching_entry(&items, "y").unwrap().command, "b");
    assert_eq!(guess_matching_entry(&items, "w").unwrap().command, "b");
    assert_eq!(guess_matching_entry(&items, "z").unwrap().command, "c");
    assert_eq!(
        guess_matching_entry(&items, "v").err(),
        Some(Error::BadSelection("v".to_string()))
    );
}

#[test]
fn the_request_holds_the_command_and_the_lines() {
    let entries = browsers();
    let references: Vec<&DesktopEntry> = entries.iter().take(2).collect();
    let path = UserPath::new("https://github.com".to_string());
    let request = selector_request(
        "rofi -mesg {%Url}",
        "{%i}: {Name}",
        " | ",
        &https(),
        Some(&path),
        &vec![],
        &references,
    );
    assert_eq!(request.command, "rofi -mesg https://github.com");
    assert_eq!(request.input, "0: Firefox | 1: Firefox (private)");
}

#[test]
fn the_output_selects_an_entry() {
    let entries = browsers();
    let references: Vec<&DesktopEntry> = entries.iter().collect();
    let pick = |identifier: &str, output: &str| {
        select("{Name}", identifier, &https(), None, &vec![], &references, output)
            .map(|entry| entry.name.as_str())
    };
    // Guessed
    assert_eq!(pick("", "Vivaldi\n"), Ok("Vivaldi"));
    assert_eq!(pick("", " \t\n"), Err(Error::Cancelled));
    assert_eq!(pick("", ""), Err(Error::Cancelled));
    assert_eq!(pick("", "vivaldi\n"), Err(Error::BadSelection("vivaldi".to_string())));
    // By identifier
    assert_eq!(pick("{%Index0}", "2\n"), Ok("Vivaldi"));
    assert_eq!(pick("{%Index1}", "2"), Ok("Firefox (private)"));
    assert_eq!(pick("{%Index0}", "Vivaldi"), Err(Error::BadSelection("Vivaldi".to_string())));
    assert_eq!(pick("{Icon}", "vivaldi"), Ok("Vivaldi"));
    assert_eq!(pick("{%Index0}", ""), Err(Error::Cancelled));
}

fn candidates(entries: &[DesktopEntry]) -> Vec<Candidate<'_>> {
    entries
        .iter()
        .map(|entry| Candidate {
            handler: DesktopHandler::assume_valid(entry.file_name.clone().unwrap()),
            entry,
        })
        .collect()
}

#[test]
fn the_selected_entry_gives_the_handler() {
    let entries = browsers();
    let candidates = candidates(&entries);
    let mut config_file = ConfigFile::default();
    let mime = https();

    let request = ask_for_handler(&candidates, &mime, None, &config_file, &vec![]);
    assert_eq!(request.command, "rofi -dmenu -i -p 'Open With: '");
    assert_eq!(
        request.input,
        "Firefox\nFirefox (private)\nVivaldi\nVivaldi (private)\nCopy to clipboard"
    );

    let pick = |config_file: &ConfigFile, output: &str| {
        get_handler_from_selector(&candidates, &mime, None, config_file, &vec![], output)
            .map(|handler| handler.as_str().to_string())
    };
    assert_eq!(pick(&config_file, "Vivaldi\n"), Ok("com.vivaldi.Vivaldi.desktop".to_string()));
    assert_eq!(pick(&config_file, "\n"), Err(Error::Cancelled));

    config_file.selector_handler_identifier = Some("{%Index0}".to_string());
    assert_eq!(pick(&config_file, "4"), Ok("copy-to-clipboard.desktop".to_string()));
    assert_eq!(pick(&config_file, "5"), Err(Error::BadSelection("5".to_string())));
}

#[test]
fn the_first_handler_of_a_name_is_taken() {
    let entries = vec![
        browser("a.desktop", "Browser", "", "a"),
        browser("b.desktop", "Browser", "", "b"),
    ];
    let candidates = candidates(&entries);
    let config_file = ConfigFile {
        selector_handler_identifier: Some("{Icon}".to_string()),
        ..ConfigFile::default()
    };
    let handler =
        get_handler_from_selector(&candidates, &https(), None, &config_file, &vec![], "b").unwrap();
    assert_eq!(handler.as_str(), "a.desktop");
}

#[test]
fn the_user_is_asked_where_there_is_a_choice() {
    let mime_apps = MimeApps::read_from(
        "[Default Applications]\n\
        x-scheme-handler/https=a.desktop;gone.desktop;b.desktop;\n\
        x-scheme-handler/http=gone.desktop;b.desktop;\n\
        text/html=a.desktop;\n\
        text/css=gone.desktop;\n",
    )
    .unwrap();
    let a = || Some(browser("a.desktop", "A", "", "a"));
    let b = || Some(browser("b.desktop", "B", "", "b"));
    let asking = ConfigFile { enable_selector: true, ..ConfigFile::default() };
    let resolve = |mime: &str, config_file: &ConfigFile, loaded: Vec<Option<DesktopEntry>>| {
        let mime = Mime::from_str(mime).unwrap();
        match mime_apps.get_handler_from_user(&mime, None, config_file, &vec![], &loaded) {
            Ok(Resolution::Handler(handler)) => Ok(handler.as_str().to_string()),
            Ok(Resolution::Select { request, candidates }) => {
                let handlers: Vec<&str> = candidates.iter().map(|c| c.handler.as_str()).collect();
                Ok(format!("{}?{}", request.input.replace('\n', "|"), handlers.join("|")))
            }
            Err(e) => Err(e),
        }
    };

    assert_eq!(
        resolve("x-scheme-handler/https", &asking, vec![a(), None, b()]),
        Ok("A|B?a.desktop|b.desktop".to_string())
    );
    assert_eq!(
        resolve("x-scheme-handler/http", &asking, vec![None, b()]),
        Ok("B?b.desktop".to_string())
    );
    assert_eq!(
        resolve("x-scheme-handler/http", &asking, vec![None, None]),
        Ok("?".to_string())
    );
    // One handler is no choice
    assert_eq!(resolve("text/html", &asking, vec![a()]), Ok("a.desktop".to_string()));
    // The selector is disabled: the first that can be read
    let silent = ConfigFile::default();
    assert_eq!(
        resolve("x-scheme-handler/https", &silent, vec![a(), None, b()]),
        Ok("a.desktop".to_string())
    );
    assert_eq!(
        resolve("x-scheme-handler/http", &silent, vec![None, b()]),
        Ok("b.desktop".to_string())
    );
    assert_eq!(
        resolve("text/css", &silent, vec![None]),
        Err(Error::NotFound("text/css".to_string()))
    );
    assert_eq!(
        resolve("image/png", &asking, vec![]),
        Err(Error::NotFound("image/png".to_string()))
    );
}

#[test]
fn control_characters_are_shown_as_escape_sequences() {
    assert_eq!(format_cmd("plain 'text' é"), "plain 'text' é");
    assert_eq!(format_cmd("a\nb\tc\0d"), "a\\nb\\tc\\0d");
    assert_eq!(format_cmd("\r\u{1}\u{1f}\u{7f}"), "\\xd\\x1\\x1f\\x7f");
    assert_eq!(format_cmd("\u{80}\u{9f}\u{a0}"), "\\u{80}\\u{9f}\u{a0}");
}

#[test]
fn the_default_configuration() {
    let config_file = ConfigFile::default();
    assert!(!config_file.enable_selector);
    assert_eq!(config_file.selector, "rofi -dmenu -i -p 'Open With: '");
    assert_eq!(config_file.selector_handler_format, "{Name}");
    assert_eq!(config_file.selector_handler_separator, "\n");
    assert_eq!(config_file.selector_handler_identifier, None);
    assert_eq!(config_file.term_exec_args.as_deref(), Some("-e"));
    assert!(!config_file.expand_wildcards);
    assert!(config_file.handlers.handlers.is_empty());
}

#[test]
fn the_selector_can_be_overridden() {
    let mut config_file = ConfigFile::default();
    config_file.override_selector(SelectorArgs { selector: None, enable_selector: Some(true) });
    assert_eq!(config_file.selector, "rofi -dmenu -i -p 'Open With: '");
    assert!(config_file.enable_selector);

    config_file.override_selector(SelectorArgs {
        selector: Some("fzf".to_string()),
        enable_selector: None,
    });
    assert_eq!(config_file.selector, "fzf");
    assert!(config_file.enable_selector);

    config_file.override_selector(SelectorArgs { selector: None, enable_selector: Some(false) });
    assert_eq!(config_file.selector, "fzf");
    assert!(!config_file.enable_selector);
}

#[test]
fn the_first_matching_regex_handler_is_taken() {
    let handler = |command: &str, regexes: &[&str]| RegexHandler {
        command: command.to_string(),
        terminal: false,
        regexes: regexes.iter().map(|r| r.to_string()).collect(),
    };
    let config_file = ConfigFile {
        handlers: RegexApps {
            handlers: vec![
                handler("broken", &["("]),
                handler("freetube", &["(https://)?(www\\.)?youtu(be\\.com|\\.be)/*"]),
                handler("media", &["\\.mp4$", "youtu"]),
            ],
        },
        ..ConfigFile::default()
    };
    let found = |path: &str| {
        config_file.get_regex_handler(&UserPath::new(path.to_string())).map(|h| h.command)
    };
    assert_eq!(found("https://youtu.be/abc"), Ok("freetube".to_string()));
    assert_eq!(found("youtu"), Ok("media".to_string()));
    assert_eq!(found("a.mp4"), Ok("media".to_string()));
    assert_eq!(found("("), Err(Error::NotFound("(".to_string())));
}

#[test]
fn the_outcome_of_the_regular_expressions_decides() {
    assert!(!any_found(&vec![]));
    assert!(!any_found(&vec![None, Some(false)]));
    assert!(any_found(&vec![None, Some(false), Some(true)]));

    let handler = |command: &str| RegexHandler {
        command: command.to_string(),
        terminal: true,
        regexes: vec![],
    };
    let apps = RegexApps { handlers: vec![handler("a"), handler("b"), handler("c")] };
    let path = UserPath::new("x".to_string());
    assert_eq!(apps.first_matching(&vec![false, true, true], &path), Ok(handler("b")));
    assert_eq!(
        apps.first_matching(&vec![false, false, false], &path),
        Err(Error::NotFound("x".to_string()))
    );
}

//! Desktop entries and the commands that they give.
use handlr::config_file::ConfigFile;
use handlr::desktop_entry::{Config, DesktopEntry, EntryPath, Launch, Mode};
use handlr::error::Error;

const CMUS: &str = r#"[Desktop Entry]
Encoding=UTF-8
Version=1.0
Type=Application
Name=cmus-remote
Comment=Music player cmus-remote control
NoDisplay=true
Exec=bash -c "(! pgrep cmus && tilix -e cmus && tilix -a session-add-down -e cava); sleep 0.1 && cmus-remote -q %f"
Terminal=false
MimeType=audio/mp3;audio/ogg;
"#;

const WEZTERM: &str = "[Desktop Entry]
Name=WezTerm
Comment=Wez's Terminal Emulator
Keywords=shell;prompt;command;commandline;cmd;
Icon=org.wezfurlong.wezterm
StartupWMClass=org.wezfurlong.wezterm
TryExec=wezterm
Exec=wezterm start --cwd .
Type=Application
Categories=System;TerminalEmulator;Utility;
Terminal=false
";

const HELIX: &str = "[Desktop Entry]
Name=Helix
GenericName=Text Editor
Comment=Edit text files
TryExec=hx
Exec=hx %F
Terminal=true
Type=Application
Keywords=Text;editor;
Icon=helix
Categories=Utility;TextEditor;
MimeType=text/english;text/plain;
";

const VLC: &str = "[Desktop Entry]
Version=1.0
Name=VLC media player
GenericName=Media player
Name[bn]=VLC মিডিয়া প্লেয়ার
Name[es]=Reproductor multimedia VLC
Name[fr]=Lecteur multimédia VLC
Name[hu]=VLC médialejátszó
Name[it]=Lettore multimediale VLC
Name[ja]=VLCメディアプレイヤー
Name[nl]=VLC media player
Name[pa]=VLC ਮੀਡਿਆ ਪਲੇਅਰ
Name[ru]=Медиаплеер VLC
Exec=/usr/bin/vlc --started-from-file %U
Icon=vlc
Terminal=false
Type=Application
Categories=AudioVideo;Player;Recorder;
MimeType=application/ogg;audio/ogg;not a mime type;audio/ogg;
";

const EMPTY_NAME: &str = "[Desktop Entry]\nName=\nExec=hx %F\n";

const EMPTY_EXEC: &str = "[Desktop Entry]\nName=Helix\nExec=\n";

fn path(file_name: &str) -> EntryPath {
    EntryPath {
        path: format!("tests/assets/{file_name}"),
        file_name: Some(file_name.to_string()),
    }
}

fn parse(file_name: &str, text: &str) -> Result<DesktopEntry, Error> {
    DesktopEntry::parse_file(&path(file_name), text.as_bytes(), &vec![])
}

fn in_terminal() -> Config {
    Config { terminal_output: true, terminal: Err(Error::NoTerminal) }
}

fn without_terminal() -> Config {
    Config { terminal_output: false, terminal: Err(Error::NoTerminal) }
}

fn test_get_cmd(entry: &DesktopEntry, config: &Config, expected_command: &str) {
    assert_eq!(entry.get_cmd(config, &vec!["test".to_string()]).unwrap(), expected_command);
}

#[test]
fn complex_exec() {
    // Note that this entry also has no category key
    let entry = parse("cmus.desktop", CMUS).unwrap();
    let mime_type = entry.mime_type().unwrap();
    assert_eq!(mime_type.len(), 2);
    assert_eq!(mime_type[0].as_str(), "audio/mp3");
    assert_eq!(mime_type[1].as_str(), "audio/ogg");
    assert!(!entry.is_terminal_emulator());

    test_get_cmd(
        &entry,
        &in_terminal(),
        "bash -c \"(! pgrep cmus && tilix -e cmus && tilix -a session-add-down -e cava); sleep 0.1 && cmus-remote -q test\"",
    )
}

#[test]
fn terminal_emulator() {
    let entry = parse("org.wezfurlong.wezterm.desktop", WEZTERM).unwrap();
    assert!(entry.mime_type().is_none_or(|mt| mt.is_empty()));
    assert!(entry.is_terminal_emulator());

    test_get_cmd(&entry, &in_terminal(), "wezterm start --cwd . test")
}

#[test]
fn invalid_desktop_entries() {
    let empty_name = parse("empty_name.desktop", EMPTY_NAME);
    assert!(empty_name.is_err());

    let empty_exec = parse("empty_exec.desktop", EMPTY_EXEC);
    assert!(empty_exec.is_err());
}

#[test]
fn terminal_application_command() {
    let emulator = parse("org.wezfurlong.wezterm.desktop", WEZTERM).unwrap();
    let args = ConfigFile::default().term_exec_args.unwrap();
    let config = Config {
        terminal_output: false,
        terminal: Ok(format!("{} {}", emulator.command, args)),
    };

    let entry = parse("Helix.desktop", HELIX).unwrap();

    test_get_cmd(&entry, &config, "wezterm start --cwd . -e hx test")
}

fn lang_test(languages: &[&str], expected_name: &str) {
    let languages: Vec<String> = languages.iter().map(|s| s.to_string()).collect();
    let entry =
        DesktopEntry::parse_file(&path("vlc.desktop"), VLC.as_bytes(), &languages).unwrap();
    assert_eq!(entry.name, expected_name);
}

#[test]
fn language_support() {
    // No languages
    lang_test(&[], "VLC media player");

    // Just one language
    lang_test(&["es"], "Reproductor multimedia VLC");

    // Multiple languages
    lang_test(&["ja", "fr", "nl"], "VLCメディアプレイヤー");

    // No valid languages
    lang_test(&["qwert", "yuiop"], "VLC media player");

    // Some invalid languages
    lang_test(&["asdfg", "hjkl?;", "bn", "hu"], "VLC মিডিয়া প্লেয়ার");
    lang_test(&["zxcv", "pa", "it", "ru"], "VLC ਮੀਡਿਆ ਪਲੇਅਰ");
}

#[test]
fn errors_name_the_missing_field() {
    let bad = |field: &str| {
        Some(Error::BadEntry("tests/assets/x.desktop".to_string(), field.to_string()))
    };
    assert_eq!(parse("x.desktop", "[Other]\nName=a\nExec=b\n").err(), bad("Desktop Entry"));
    assert_eq!(parse("x.desktop", "[Desktop Entry]\nExec=b\n").err(), bad("Name"));
    assert_eq!(parse("x.desktop", "[Desktop Entry]\nName=a\n").err(), bad("Exec"));
    assert_eq!(parse("x.desktop", EMPTY_NAME).err(), bad("Name"));
    assert_eq!(parse("x.desktop", EMPTY_EXEC).err(), bad("Exec"));
    // A field that is missing is named before one that is empty
    assert_eq!(parse("x.desktop", "[Desktop Entry]\nName=\n").err(), bad("Exec"));
    assert_eq!(
        parse("x.desktop", "[Desktop Entry\nName=a\n").err(),
        Some(Error::BadEntryFile("tests/assets/x.desktop".to_string()))
    );
}

#[test]
fn fields_are_taken_from_the_file() {
    let entry = parse("Helix.desktop", HELIX).unwrap();
    assert_eq!(entry.name, "Helix");
    assert_eq!(entry.command, "hx %F");
    assert_eq!(entry.file_name.as_deref(), Some("Helix.desktop"));
    assert!(entry.terminal);
    assert!(!parse("cmus.desktop", CMUS).unwrap().terminal);

    assert_eq!(entry.get_first("GenericName"), Some("Text Editor"));
    assert_eq!(entry.get_first("NoSuchKey"), None);
    assert_eq!(
        entry.categories(),
        Some(vec!["Utility".to_string(), "TextEditor".to_string()])
    );
}

#[test]
fn a_terminal_value_other_than_true_is_false() {
    for (value, expected) in [("true", true), ("false", false), ("True", false), ("1", false)] {
        let text = format!("[Desktop Entry]\nName=a\nExec=b\nTerminal={value}\n");
        assert_eq!(parse("x.desktop", &text).unwrap().terminal, expected);
    }
}

#[test]
fn localized_values_fall_back() {
    let entry = parse("vlc.desktop", VLC).unwrap();
    let languages = |list: &[&str]| list.iter().map(|s| s.to_string()).collect::<Vec<_>>();
    assert_eq!(
        entry.get_first_with_language("Name", &languages(&["pl", "fr", "it"])),
        Some("Lecteur multimédia VLC")
    );
    assert_eq!(
        entry.get_first_with_language("Name", &languages(&["pl", "cs"])),
        entry.get_first("Name")
    );
    assert_eq!(
        entry.get_first_with_language("GenericName", &languages(&["fr"])),
        Some("Media player")
    );
}

#[test]
fn what_is_no_mime_type_is_passed_over() {
    let entry = parse("vlc.desktop", VLC).unwrap();
    let mimes: Vec<String> =
        entry.mime_type().unwrap().iter().map(|m| m.as_str().to_string()).collect();
    assert_eq!(mimes, ["application/ogg", "audio/ogg"]);
}

#[test]
fn pieces_are_distinct_within_one_value() {
    let entry = parse(
        "x.desktop",
        "[Desktop Entry]\nName=a\nExec=b\nCategories=;A;;B;A;\n",
    )
    .unwrap();
    assert_eq!(entry.categories(), Some(vec!["A".to_string(), "B".to_string()]));
    assert_eq!(
        entry.get_all_separated("Categories", ";A;"),
        Some(vec![";B".to_string()]),
    );
}

#[test]
fn a_fake_entry_has_no_keys() {
    let entry = DesktopEntry::fake_entry("mpv %u", true);
    assert_eq!(entry.name, "");
    assert_eq!(entry.command, "mpv %u");
    assert_eq!(entry.file_name.as_deref(), Some(""));
    assert!(entry.terminal);
    assert!(entry.mime_type().is_none());
    assert!(entry.categories().is_none());
    assert!(!entry.is_terminal_emulator());
    assert_eq!(entry.get_first("Name"), None);
}

fn arguments(list: &[&str]) -> Vec<String> {
    list.iter().map(|s| s.to_string()).collect()
}

#[test]
fn arguments_take_the_place_of_field_codes() {
    let cmd = |command: &str, list: &[&str]| {
        DesktopEntry::fake_entry(command, false)
            .get_cmd(&in_terminal(), &arguments(list))
            .unwrap()
    };
    assert_eq!(cmd("mpv %f", &["a", "b"]), "mpv a b");
    assert_eq!(cmd("mpv %F --x %u %U", &["a"]), "mpv a --x a a");
    assert_eq!(cmd("mpv %i", &["a"]), "mpv %i a");
    assert_eq!(cmd("mpv", &["a", "b c"]), "mpv a b c");
    assert_eq!(cmd(" mpv ", &[]), "mpv");
    assert_eq!(cmd("mpv %f", &[]), "mpv");
    assert_eq!(cmd("mpv %%f", &["a"]), "mpv %a");
    // A dollar sign is nothing special
    assert_eq!(cmd("vlc %f", &["/tmp/$1.mp3"]), "vlc /tmp/$1.mp3");
    assert_eq!(cmd("mpv %F", &["$1"]), "mpv $1");
    assert_eq!(cmd("mpv %F", &["$$"]), "mpv $$");
    assert_eq!(cmd("mpv", &["$1"]), "mpv $1");
}

#[test]
fn a_new_terminal_is_opened_where_there_is_none() {
    let entry = DesktopEntry::fake_entry("hx %f", true);
    assert_eq!(entry.get_cmd(&in_terminal(), &arguments(&["a"])).unwrap(), "hx a");
    assert_eq!(
        entry.get_cmd(&without_terminal(), &arguments(&["a"])),
        Err(Error::NoTerminal)
    );
    let config = Config { terminal_output: false, terminal: Ok("xterm -e".to_string()) };
    assert_eq!(entry.get_cmd(&config, &arguments(&["a"])).unwrap(), "xterm -e hx a");
    assert_eq!(entry.finish_cmd(&config, " hx a ".to_string()).unwrap(), "xterm -e  hx a");
    let graphical = DesktopEntry::fake_entry("gedit %f", false);
    assert_eq!(graphical.get_cmd(&config, &arguments(&["a"])).unwrap(), "gedit a");
}

fn launches(command: &str, mode: Mode, list: &[&str]) -> Vec<String> {
    DesktopEntry::fake_entry(command, false)
        .execute(&in_terminal(), mode, arguments(list))
        .unwrap()
        .into_iter()
        .map(|launch| launch.command)
        .collect()
}

#[test]
fn files_are_opened_one_by_one_unless_the_command_takes_many() {
    assert_eq!(launches("mpv %f", Mode::Open, &["a", "b"]), ["mpv a", "mpv b"]);
    assert_eq!(launches("mpv", Mode::Open, &["a", "b"]), ["mpv a", "mpv b"]);
    assert_eq!(launches("mpv %F", Mode::Open, &["a", "b"]), ["mpv a b"]);
    assert_eq!(launches("mpv %U", Mode::Open, &["a", "b"]), ["mpv a b"]);
    assert_eq!(launches("mpv %f", Mode::Launch, &["a", "b"]), ["mpv a b"]);
    assert_eq!(launches("mpv %f", Mode::Open, &[]), ["mpv"]);
}

#[test]
fn a_terminal_program_in_a_terminal_is_waited_for() {
    let run = |terminal: bool, terminal_output: bool| {
        DesktopEntry::fake_entry("hx", terminal)
            .execute(
                &Config { terminal_output, terminal: Ok("xterm -e".to_string()) },
                Mode::Open,
                vec![],
            )
            .unwrap()
    };
    let launch = |command: &str, wait: bool| vec![Launch { command: command.to_string(), wait }];
    assert_eq!(run(true, true), launch("hx", true));
    assert_eq!(run(true, false), launch("xterm -e hx", false));
    assert_eq!(run(false, true), launch("hx", false));
    assert_eq!(run(false, false), launch("hx", false));
}

#[test]
fn nothing_is_launched_without_a_terminal() {
    let entry = DesktopEntry::fake_entry("hx %f", true);
    assert_eq!(
        entry.execute(&without_terminal(), Mode::Open, arguments(&["a", "b"])),
        Err(Error::NoTerminal)
    );
}

use workspace::codec::DecodeError;
use workspace::record::Commands;
use workspace::record::Workspace;
use workspace::{decode, encode};

fn sample() -> Workspace {
    Workspace {
        path: "/home/u/proj".to_string(),
        tabs: vec!["https://example.org".to_string(), "https://docs.example.org".to_string()],
        commands: Commands {
            local: vec!["ls -la".to_string()],
            external: vec!["vim .".to_string(), "htop".to_string()],
            background: vec!["server --port 8080".to_string()],
        },
    }
}

#[test]
fn round_trip_full_record() {
    let w = sample();
    let text = encode(&w);
    let back = decode(&text).expect("the encoded record must decode");
    assert_eq!(back.path, w.path);
    assert_eq!(back.tabs, w.tabs);
    assert_eq!(back.commands.local, w.commands.local);
    assert_eq!(back.commands.external, w.commands.external);
    assert_eq!(back.commands.background, w.commands.background);
}

#[test]
fn encode_is_deterministic_and_exact() {
    let w = Workspace {
        path: "/p".to_string(),
        tabs: Vec::new(),
        commands: Commands {
            local: vec!["a".to_string()],
            external: Vec::new(),
            background: Vec::new(),
        },
    };
    let text = encode(&w);
    assert_eq!(text, "path = \"/p\"\ncommands.local = [\"a\"]\n");
    assert_eq!(encode(&w), text);
}

#[test]
fn empty_lists_are_omitted() {
    let w = Workspace {
        path: "/only".to_string(),
        tabs: Vec::new(),
        commands: Commands { local: Vec::new(), external: Vec::new(), background: Vec::new() },
    };
    assert_eq!(encode(&w), "path = \"/only\"\n");
    let back = decode(&encode(&w)).expect("must decode");
    assert_eq!(back.path, "/only");
    assert!(back.tabs.is_empty());
    assert!(back.commands.local.is_empty());
    assert!(back.commands.external.is_empty());
    assert!(back.commands.background.is_empty());
}

#[test]
fn partial_default_handwritten_text() {
    let back = decode("path = \"/x\"").expect("a path-only text must decode");
    assert_eq!(back.path, "/x");
    assert!(back.tabs.is_empty());
    assert!(back.commands.local.is_empty());
    assert!(back.commands.external.is_empty());
    assert!(back.commands.background.is_empty());
}

#[test]
fn unknown_keys_are_ignored() {
    let text = "path = \"/x\"\nfuture_knob = {anything at all}\ncolour = 7\n";
    let back = decode(text).expect("unknown keys must not fail the decode");
    assert_eq!(back.path, "/x");
}

#[test]
fn comments_and_blank_lines_are_skipped() {
    let text = "# a workspace\n\n  \npath = \"/x\"\n# the end\n";
    let back = decode(text).expect("comments and blanks must be tolerated");
    assert_eq!(back.path, "/x");
}

#[test]
fn missing_path_is_an_error() {
    let err = decode("tabs = [\"https://a\"]\n").unwrap_err();
    assert_eq!(err, DecodeError::MissingPath);
    assert_eq!(err.describe(), "the record has no 'path' entry");
}

#[test]
fn empty_text_is_missing_path() {
    let err = decode("").unwrap_err();
    assert_eq!(err, DecodeError::MissingPath);
}

#[test]
fn malformed_line_is_reported_with_its_number() {
    let err = decode("path = \"/x\"\nnot a line!!\n").unwrap_err();
    assert_eq!(err, DecodeError::Malformed { line: 2 });
}

#[test]
fn wrong_typed_path_is_malformed() {
    let err = decode("path = [\"/x\"]\n").unwrap_err();
    assert_eq!(err, DecodeError::Malformed { line: 1 });
}

#[test]
fn wrong_typed_list_is_malformed() {
    let err = decode("path = \"/x\"\ntabs = \"https://a\"\n").unwrap_err();
    assert_eq!(err, DecodeError::Malformed { line: 2 });
}

#[test]
fn trailing_comma_is_accepted() {
    let back = decode("path = \"/x\"\ntabs = [\"a\", \"b\",]\n").expect("must decode");
    assert_eq!(back.tabs, vec!["a".to_string(), "b".to_string()]);
}

#[test]
fn surrounding_spaces_are_tolerated() {
    let back = decode("   path   =   \"/x\"   \n").expect("must decode");
    assert_eq!(back.path, "/x");
}

#[test]
fn carriage_returns_are_tolerated() {
    let back = decode("path = \"/x\"\r\ntabs = [\"a\"]\r\n").expect("CRLF text must decode");
    assert_eq!(back.path, "/x");
    assert_eq!(back.tabs, vec!["a".to_string()]);
}

#[test]
fn later_key_wins() {
    let back = decode("path = \"/first\"\npath = \"/second\"\n").expect("must decode");
    assert_eq!(back.path, "/second");
}

#[test]
fn empty_list_value_decodes() {
    let back = decode("path = \"/x\"\ntabs = [ ]\n").expect("must decode");
    assert!(back.tabs.is_empty());
}

#[test]
fn a_quote_inside_a_string_is_outside_the_clean_fragment() {
    // The round-trip law covers records whose strings avoid the
    // delimiters; a double quote inside a command falls outside it,
    // and decoding the encoding fails rather than mis-reading.
    let w = Workspace {
        path: "/x".to_string(),
        tabs: Vec::new(),
        commands: Commands {
            local: vec!["echo \"hi\"".to_string()],
            external: Vec::new(),
            background: Vec::new(),
        },
    };
    assert!(decode(&encode(&w)).is_err());
}

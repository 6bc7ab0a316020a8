use powerfile_templating::index::extract_template;
use powerfile_templating::index::get_raw_metadata;
use powerfile_templating::index::metadata_from_fields;
use powerfile_templating::index::parse_metadata_yaml;
use powerfile_templating::index::CachedTemplate;
use powerfile_templating::index::IndexBuildError;
use powerfile_templating::index::MetadataError;
use powerfile_templating::index::TemplateIndex;
use powerfile_templating::index::TemplateOptions;
use powerfile_templating::template_index::read_template_index;
use powerfile_templating::template_index::write_template_index;
use powerfile_templating::text::split_whitespace;

fn options(block_size: usize) -> TemplateOptions {
    TemplateOptions {
        template_source_dir: "./templates".to_string(),
        cached_templates_dir: "./cache".to_string(),
        index_path: "./cache/index".to_string(),
        block_size,
    }
}

#[test]
fn block_index_round_trip() {
    let paths = vec!["a/b.cs".to_string(), "c/d.cs".to_string()];
    let bytes = write_template_index(&paths, 128).expect("both paths fit in a block");
    assert_eq!(bytes.len(), 256);
    let got = read_template_index(&bytes, 128, &vec![0, 1, 2]);
    assert_eq!(
        got,
        vec![
            (0, Some("a/b.cs".to_string())),
            (1, Some("c/d.cs".to_string())),
            (2, None),
        ]
    );
}

#[test]
fn block_index_length_guard() {
    let long = "x".repeat(9);
    let paths = vec!["ok".to_string(), long];
    let r = write_template_index(&paths, 8);
    match r {
        Err(IndexBuildError::InvalidIndex(m)) => {
            assert_eq!(
                m,
                "Template location path 'xxxxxxxxx' is too long for block-size 8"
            );
        }
        _ => panic!("a too-long path must fail the whole write"),
    }
}

#[test]
fn blank_blocks_resolve_to_nothing() {
    // an empty path and a whitespace-only path leave blocks with no text
    let paths = vec!["".to_string(), "  ".to_string(), "real".to_string()];
    let bytes = write_template_index(&paths, 16).expect("all paths fit");
    let got = read_template_index(&bytes, 16, &vec![0, 1, 2]);
    assert_eq!(got, vec![(0, None), (1, None), (2, Some("real".to_string()))]);
}

#[test]
fn corrupt_blocks_are_recovered_lossily() {
    // a block that is not valid UTF-8 still yields a path, with invalid
    // sequences replaced, exactly as a lossy decoding gives it
    let data = vec![b'a', 0xff, b'b', 0u8];
    let got = read_template_index(&data, 4, &vec![0]);
    assert_eq!(got, vec![(0, Some("a\u{fffd}b".to_string()))]);
}

#[test]
fn resolve_with_zero_block_size_reads_nothing() {
    let got = read_template_index(&vec![1, 2, 3], 0, &vec![0, 1]);
    assert_eq!(got, vec![(0, None), (1, None)]);
}

#[test]
fn raw_metadata_block_and_offset() {
    let content = b"---\nprefix: IRequest\n---\nbody line\n".to_vec();
    let (block, off) = get_raw_metadata(&content).expect("a delimited block exists");
    assert_eq!(block, "prefix: IRequest\n");
    assert_eq!(&content[off..], b"body line\n");
}

#[test]
fn raw_metadata_trims_delimiter_lines_and_chomps_cr() {
    let content = b"junk\r\n  ---  \r\nprefix: a\r\n---\nrest".to_vec();
    let (block, off) = get_raw_metadata(&content).expect("a delimited block exists");
    assert_eq!(block, "prefix: a\n");
    assert_eq!(&content[off..], b"rest");
}

#[test]
fn raw_metadata_missing_second_delimiter() {
    let content = b"---\nprefix: a\n".to_vec();
    match get_raw_metadata(&content) {
        Err(MetadataError::InvalidMetadataError) => {}
        _ => panic!("an unterminated block must be a missing-metadata error"),
    }
}

#[test]
fn raw_metadata_missing_entirely() {
    let content = b"no delimiters here\nat all\n".to_vec();
    match get_raw_metadata(&content) {
        Err(MetadataError::InvalidMetadataError) => {}
        _ => panic!("a file without delimiters must be a missing-metadata error"),
    }
}

#[test]
fn raw_metadata_rejects_invalid_utf8_lines() {
    let content = vec![b'-', b'-', b'-', b'\n', 0xff, 0xfe, b'\n', b'-', b'-', b'-', b'\n'];
    match get_raw_metadata(&content) {
        Err(MetadataError::InvalidUtf8) => {}
        _ => panic!("a non-UTF-8 line must be an encoding error"),
    }
}

#[test]
fn yaml_fields_are_whitespace_split() {
    let m = parse_metadata_yaml("prefix: IRequest Request\ntags: csharp web\n")
        .expect("well-formed metadata parses");
    let engine =
        powerfile_templating::search::TemplateEngine::from_templates(vec![m]);
    assert_eq!(engine.search("RequestHandler", None), Some(0));
    assert_eq!(engine.search("zzz", Some(&vec!["web"])), Some(0));
    assert_eq!(engine.search("zzz", Some(&vec!["none"])), None);
}

#[test]
fn yaml_absent_fields_stay_absent() {
    let m = parse_metadata_yaml("tags: csharp\n").expect("well-formed metadata parses");
    let engine = powerfile_templating::search::TemplateEngine::from_templates(vec![m]);
    // no prefix or suffix entries were contributed
    assert_eq!(engine.search("anything", None), None);
    assert_eq!(engine.search("anything", Some(&vec!["csharp"])), Some(0));
}

#[test]
fn yaml_syntax_error_is_reported() {
    match parse_metadata_yaml("prefix: [unclosed\n") {
        Err(MetadataError::MetadataParseError(m)) => {
            assert!(m.starts_with("Failed to parse template YAML metadata: "));
        }
        _ => panic!("malformed YAML must be a parse error"),
    }
}

#[test]
fn yaml_without_a_document_is_a_parse_error() {
    match parse_metadata_yaml("") {
        Err(MetadataError::MetadataParseError(m)) => {
            assert_eq!(m, "Failed to parse template YAML metadata: no document");
        }
        _ => panic!("an empty metadata block must be a parse error"),
    }
}

#[test]
fn metadata_from_fields_splits_each_field() {
    let m = metadata_from_fields(
        Some("  a  b ".to_string()),
        None,
        Some("one".to_string()),
    );
    let engine = powerfile_templating::search::TemplateEngine::from_templates(vec![m]);
    assert_eq!(engine.search("a!", None), Some(0));
    assert_eq!(engine.search("b!", None), Some(0));
    assert_eq!(engine.search("zzz", Some(&vec!["one"])), Some(0));
}

#[test]
fn split_whitespace_drops_all_separators() {
    assert_eq!(split_whitespace("  a  b\tc\n"), vec!["a", "b", "c"]);
    assert_eq!(split_whitespace(""), Vec::<String>::new());
    assert_eq!(split_whitespace(" \t "), Vec::<String>::new());
}

#[test]
fn to_index_error_tags_the_path() {
    let e = MetadataError::InvalidMetadataError.to_index_error("./t/a.cs");
    match e {
        IndexBuildError::TemplateParseError(p, m) => {
            assert_eq!(p, "./t/a.cs");
            assert_eq!(m, "Failed to find metadata on template: No template metadata found");
        }
        _ => panic!("a missing block is a template parse error"),
    }
    let e = MetadataError::MetadataParseError("bad".to_string()).to_index_error("./t/b.cs");
    match e {
        IndexBuildError::TemplateParseError(p, m) => {
            assert_eq!(p, "./t/b.cs");
            assert_eq!(m, "Failed to parse template metadata: bad");
        }
        _ => panic!("a malformed block is a template parse error"),
    }
    let e = MetadataError::InvalidUtf8.to_index_error("./t/c.cs");
    match e {
        IndexBuildError::IoError(p, m) => {
            assert_eq!(p, "./t/c.cs");
            assert_eq!(m, "stream did not contain valid UTF-8");
        }
        _ => panic!("an encoding failure is an io error"),
    }
}

#[test]
fn index_end_to_end() {
    let mut index = TemplateIndex::new(options(64));
    let content = b"---\nprefix: IRequest\nsuffix: Handler.cs\ntags: csharp\n---\nbody".to_vec();
    let (meta, off) = extract_template(&content).expect("the template is well formed");
    assert_eq!(&content[off..], b"body");
    index.push_template(CachedTemplate::new("cache/one".to_string(), meta));
    let m2 = extract_template(&b"---\nsuffix: .md\n---\ndoc".to_vec())
        .expect("the template is well formed")
        .0;
    index.push_template(CachedTemplate::new("cache/two".to_string(), m2));
    assert_eq!(index.len(), 2);

    let engine = index.to_engine();
    assert_eq!(engine.search("IRequestHandler.cs", Some(&vec!["csharp"])), Some(0));
    assert_eq!(engine.search("notes.md", None), Some(1));

    let bytes = index.index_bytes().expect("both paths fit");
    let got = index.get_templates_path(&bytes, &vec![0, 1, 5]);
    assert_eq!(
        got,
        vec![
            (0, Some("cache/one".to_string())),
            (1, Some("cache/two".to_string())),
            (5, None),
        ]
    );
}

#[test]
fn full_block_and_unicode_paths_round_trip() {
    // one path fills its block exactly; one is multi-byte UTF-8
    let exact = "e".repeat(8);
    let paths = vec![exact.clone(), "日本/f.cs".to_string()];
    let bytes = write_template_index(&paths, 12).expect("both paths fit");
    assert_eq!(bytes.len(), 24);
    let got = read_template_index(&bytes, 12, &vec![0, 1]);
    assert_eq!(got, vec![(0, Some(exact)), (1, Some("日本/f.cs".to_string()))]);
}

#[test]
fn index_bytes_reports_the_length_guard() {
    let mut index = TemplateIndex::new(options(4));
    let meta = metadata_from_fields(None, None, None);
    index.push_template(CachedTemplate::new("too-long-path".to_string(), meta));
    match index.index_bytes() {
        Err(IndexBuildError::InvalidIndex(m)) => assert!(m.contains("too-long-path")),
        _ => panic!("a too-long cached path must fail the write"),
    }
}

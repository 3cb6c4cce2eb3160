//! The stored form of evaluated documents: what is written reads back,
//! identity being checked by writing the value read back again, and broken
//! input reads as nothing rather than failing.

use dowel::codec::{decode_document, encode_document, merge_rule, R, VERSION};
use dowel::document::{CfgRef, Document, Entry, Table};
use dowel::value::{
    CfgKey, Data, FileId, MatchArm, Ns, Origin, PathBase, PathValue, Pattern, Pred, Prov, Site,
    Span, Type, Value,
};

/// The span of the first occurrence of `needle` in `src`.
fn span_of(src: &str, needle: &str) -> Span {
    let start = src.find(needle).expect("the fixture holds the text") as u32;
    Span::new(start, start + needle.len() as u32)
}

fn site(file: u64, span: Span) -> Site {
    Site::new(FileId(file), span)
}

fn literal(file: u64, span: Span) -> Prov {
    Prov::at(Origin::Literal, site(file, span))
}

fn string(s: &str, file: u64, span: Span) -> Value {
    Value::str(s.to_string(), literal(file, span))
}

fn entry(src: &str, file: u64, key: &str, value: Value) -> Entry {
    let span = span_of(src, key);
    Entry {
        key: vec![key.to_string()],
        key_spans: vec![span],
        site: site(file, span),
        value,
    }
}

fn table(src: &str, file: u64, header: &str, path: &[&str], entries: Vec<Entry>) -> Table {
    let at = span_of(src, header);
    let mut spans = Vec::new();
    let mut from = at.start as usize;
    for seg in path {
        let start = from + src[from..].find(seg).unwrap();
        spans.push(Span::new(start as u32, (start + seg.len()) as u32));
        from = start + seg.len();
    }
    Table {
        path: path.iter().map(|s| s.to_string()).collect(),
        path_spans: spans,
        array: false,
        site: site(file, at),
        entries,
    }
}

fn glob(pattern: &str, file: u64, span: Span) -> Value {
    Value::new(
        Type::List(Box::new(Type::Path)),
        Data::Glob(pattern.to_string()),
        Prov::at(Origin::Call("glob".into()), site(file, span)),
    )
}

fn dir(rel: &str, file: u64, span: Span) -> Value {
    Value::new(
        Type::Path,
        Data::Path(PathValue { base: PathBase::Package, rel: rel.to_string() }),
        Prov::at(Origin::Call("dir".into()), site(file, span)),
    )
}

/// Writes, reads back and writes again: the two writings are the same.
fn round_trips(doc: &Document) {
    let first = encode_document(doc);
    let back = decode_document(&first).expect("the document should decode");
    let second = encode_document(&back);
    assert_eq!(first, second, "the value changed across a round trip");
}

#[test]
fn an_empty_document_round_trips() {
    // An empty manifest evaluates to no tables at all.
    round_trips(&Document { file: FileId(42), cfg_refs: Vec::new(), tables: Vec::new() });
}

fn realistic() -> Document {
    let src = r#"
[lib.foo]
sources = glob("src/**.c")

[lib.foo.public]
includes = [dir("include")]
defines  = { FOO_API = 1, NAME = "foo", ON = true }

[lib.foo.private]
includes = [dir("src")]
flags    = ["-Wall", "-Wextra"]
deps     = [dep("bar"), target("baz")]
abi      = "x86_64-gnu"
"#;
    let f = 42;
    let s = |n: &str| span_of(src, n);
    let defines = Value::new(
        Type::MapOf(Box::new(Type::Val)),
        Data::MapOf(vec![
            (
                "FOO_API".to_string(),
                Value::new(Type::Int, Data::Int(1), literal(f, s("1"))),
            ),
            ("NAME".to_string(), string("foo", f, s("\"foo\""))),
            ("ON".to_string(), Value::new(Type::Bool, Data::Bool(true), literal(f, s("true")))),
        ]),
        literal(f, s("{ FOO_API")),
    );
    let deps = Value::list(
        Type::DepRef,
        vec![
            Value::new(
                Type::DepRef,
                Data::Dep("bar".into()),
                Prov::at(Origin::Call("dep".into()), site(f, s("dep(\"bar\")"))),
            ),
            Value::new(
                Type::TargetRef,
                Data::Target("baz".into()),
                Prov::at(Origin::Call("target".into()), site(f, s("target(\"baz\")"))),
            ),
        ],
        literal(f, s("[dep(")),
    );
    Document {
        file: FileId(f),
        cfg_refs: Vec::new(),
        tables: vec![
            table(src, f, "[lib.foo]", &["lib", "foo"], vec![entry(
                src,
                f,
                "sources",
                glob("src/**.c", f, s("glob(\"src/**.c\")")),
            )]),
            table(src, f, "[lib.foo.public]", &["lib", "foo", "public"], vec![
                entry(
                    src,
                    f,
                    "includes",
                    Value::list(
                        Type::Path,
                        vec![dir("include", f, s("dir(\"include\")"))],
                        literal(f, s("[dir(\"include\")]")),
                    ),
                ),
                entry(src, f, "defines", defines),
            ]),
            table(src, f, "[lib.foo.private]", &["lib", "foo", "private"], vec![
                entry(
                    src,
                    f,
                    "includes = [dir(\"src\")]",
                    Value::list(
                        Type::Path,
                        vec![dir("src", f, s("dir(\"src\")"))],
                        literal(f, s("[dir(\"src\")]")),
                    ),
                ),
                entry(
                    src,
                    f,
                    "flags",
                    Value::list(
                        Type::Str,
                        vec![
                            string("-Wall", f, s("\"-Wall\"")),
                            string("-Wextra", f, s("\"-Wextra\"")),
                        ],
                        literal(f, s("[\"-Wall\"")),
                    ),
                ),
                entry(src, f, "deps", deps),
                entry(src, f, "abi", string("x86_64-gnu", f, s("\"x86_64-gnu\""))),
            ]),
        ],
    }
}

#[test]
fn a_realistic_manifest_round_trips() {
    let doc = realistic();
    assert!(!doc.tables.is_empty());
    round_trips(&doc);
}

#[test]
fn match_and_postfix_when_round_trip() {
    // A value that depends on the configuration is stored as it stands,
    // before it is specialised.
    let src = r#"
[bin.app]
sources = glob("src/*.c")

[bin.app.private]
flags = match cfg.opt {
    debug   => ["-O0", "-g"],
    release => ["-O2"],
    _       => [],
}
link_flags = ["-lz"] when feature.zlib
"#;
    let f = 42;
    let s = |n: &str| span_of(src, n);
    let arm = |pattern: Pattern, at: &str, items: Vec<Value>| MatchArm {
        pattern,
        site: site(f, s(at)),
        value: Value::list(Type::Str, items, literal(f, s(at))),
    };
    let flags = Value::new(
        Type::Cfg(Box::new(Type::List(Box::new(Type::Str)))),
        Data::Match {
            scrutinee: CfgKey { ns: Ns::Cfg, name: "opt".into() },
            arms: vec![
                arm(Pattern::Value("debug".into()), "debug", vec![
                    string("-O0", f, s("\"-O0\"")),
                    string("-g", f, s("\"-g\"")),
                ]),
                arm(Pattern::Value("release".into()), "release", vec![string(
                    "-O2",
                    f,
                    s("\"-O2\""),
                )]),
                arm(Pattern::Wildcard, "_ ", Vec::new()),
            ],
        },
        literal(f, s("match cfg.opt")),
    );
    let link = Value::new(
        Type::Cfg(Box::new(Type::List(Box::new(Type::Str)))),
        Data::When {
            pred: Pred::Flag(CfgKey { ns: Ns::Feature, name: "zlib".into() }),
            inner: Box::new(Value::list(
                Type::Str,
                vec![string("-lz", f, s("\"-lz\""))],
                literal(f, s("[\"-lz\"]")),
            )),
        },
        literal(f, s("when feature.zlib")),
    );
    let doc = Document {
        file: FileId(f),
        cfg_refs: vec![
            CfgRef { key: CfgKey { ns: Ns::Cfg, name: "opt".into() }, site: site(f, s("cfg.opt")) },
            CfgRef {
                key: CfgKey { ns: Ns::Feature, name: "zlib".into() },
                site: site(f, s("feature.zlib")),
            },
        ],
        tables: vec![
            table(src, f, "[bin.app]", &["bin", "app"], vec![entry(
                src,
                f,
                "sources",
                glob("src/*.c", f, s("glob(\"src/*.c\")")),
            )]),
            table(src, f, "[bin.app.private]", &["bin", "app", "private"], vec![
                entry(src, f, "flags", flags),
                entry(src, f, "link_flags", link),
            ]),
        ],
    };
    round_trips(&doc);
}

#[test]
fn a_document_with_errors_round_trips() {
    // A document with errors is stored too; its diagnostics are kept
    // apart, but the value holding `Data::Error` must read back.
    let src = "[bin.app]\nsources = nosuchfn(\"x\")\n";
    let f = 42;
    let doc = Document {
        file: FileId(f),
        cfg_refs: Vec::new(),
        tables: vec![table(src, f, "[bin.app]", &["bin", "app"], vec![entry(
            src,
            f,
            "sources",
            Value::error(literal(f, span_of(src, "nosuchfn(\"x\")"))),
        )])],
    };
    round_trips(&doc);
}

fn small(file: u64) -> Document {
    let src = "[bin.app]\nsources = glob(\"*.c\")\n";
    Document {
        file: FileId(file),
        cfg_refs: Vec::new(),
        tables: vec![table(src, file, "[bin.app]", &["bin", "app"], vec![entry(
            src,
            file,
            "sources",
            glob("*.c", file, span_of(src, "glob(\"*.c\")")),
        )])],
    }
}

#[test]
fn the_file_identifier_survives() {
    let doc = small(42);
    let back = decode_document(&encode_document(&doc)).unwrap();
    assert_eq!(back.file, FileId(42));
    assert_eq!(back.tables[0].site.file, FileId(42));
}

#[test]
fn the_provenance_chain_survives_in_order() {
    // The chain reads from the value back to the root, as `dowel why` shows it.
    let prov = Prov::at(Origin::Literal, Site { file: FileId(7), span: Span::new(1, 2) })
        .with_step(Origin::Call("dir".into()), None)
        .with_step(Origin::Merged { prop: "includes".into(), rule: "union" }, None);
    let doc = Document {
        file: FileId(7),
        cfg_refs: Vec::new(),
        tables: vec![Table {
            path: vec!["lib".into(), "a".into()],
            path_spans: vec![Span::new(1, 4), Span::new(5, 6)],
            array: false,
            site: Site { file: FileId(7), span: Span::new(0, 5) },
            entries: vec![Entry {
                key: vec!["includes".into()],
                key_spans: vec![Span::new(6, 9)],
                site: Site { file: FileId(7), span: Span::new(6, 9) },
                value: Value::new(Type::Path, Data::Glob("*.c".into()), prov),
            }],
        }],
    };
    round_trips(&doc);

    let back = decode_document(&encode_document(&doc)).unwrap();
    let chain = back.tables[0].entries[0].value.prov.chain();
    assert_eq!(chain.len(), 3);
    assert!(matches!(chain[0].0, Origin::Merged { .. }));
    assert!(matches!(chain[1].0, Origin::Call(_)));
    assert!(matches!(chain[2].0, Origin::Literal));
    // The site was held by the step nearest the root.
    assert_eq!(chain[2].1, Some(Site { file: FileId(7), span: Span::new(1, 2) }));
}

#[test]
fn the_configuration_references_survive() {
    let src = "[bin.app]\nsources = glob(\"*.c\")\n\n[bin.app.private]\nflags = [\"-O2\" when feature.fast]\n";
    let mut doc = small(42);
    doc.cfg_refs.push(CfgRef {
        key: CfgKey { ns: Ns::Feature, name: "fast".into() },
        site: site(42, span_of(src, "feature.fast")),
    });
    assert_eq!(doc.cfg_refs.len(), 1);
    let back = decode_document(&encode_document(&doc)).unwrap();
    assert_eq!(back.cfg_refs.len(), 1);
    assert_eq!(back.cfg_refs[0].key.display(), "feature.fast");
    assert_eq!(back.cfg_refs[0].site, doc.cfg_refs[0].site);
    round_trips(&doc);
}

#[test]
fn the_segment_spans_survive() {
    let src = "[lib.foo.public]\nincludes = [dir(\"include\")]\n";
    let doc = Document {
        file: FileId(42),
        cfg_refs: Vec::new(),
        tables: vec![table(src, 42, "[lib.foo.public]", &["lib", "foo", "public"], vec![entry(
            src,
            42,
            "includes",
            Value::list(
                Type::Path,
                vec![dir("include", 42, span_of(src, "dir(\"include\")"))],
                literal(42, span_of(src, "[dir")),
            ),
        )])],
    };
    let back = decode_document(&encode_document(&doc)).unwrap();
    let table = &back.tables[0];
    assert_eq!(table.path, ["lib", "foo", "public"]);
    let text = |s: Span| &src[s.start as usize..s.end as usize];
    assert_eq!(table.path_spans.iter().map(|&s| text(s)).collect::<Vec<_>>(), [
        "lib", "foo", "public"
    ]);
    let entry = &table.entries[0];
    assert_eq!(entry.key_spans.iter().map(|&s| text(s)).collect::<Vec<_>>(), ["includes"]);
}

#[test]
fn a_wrong_version_does_not_decode() {
    let mut bytes = encode_document(&small(42));
    bytes[0] = VERSION.wrapping_add(1);
    assert!(decode_document(&bytes).is_none());
}

#[test]
fn truncated_input_does_not_decode_and_does_not_panic() {
    let src = "[lib.foo]\nsources = glob(\"src/*.c\")\n\n[lib.foo.public]\nincludes = [dir(\"include\")]\n";
    let doc = Document {
        file: FileId(42),
        cfg_refs: Vec::new(),
        tables: vec![
            table(src, 42, "[lib.foo]", &["lib", "foo"], vec![entry(
                src,
                42,
                "sources",
                glob("src/*.c", 42, span_of(src, "glob")),
            )]),
            table(src, 42, "[lib.foo.public]", &["lib", "foo", "public"], vec![entry(
                src,
                42,
                "includes",
                Value::list(
                    Type::Path,
                    vec![dir("include", 42, span_of(src, "dir("))],
                    literal(42, span_of(src, "[dir")),
                ),
            )]),
        ],
    };
    let bytes = encode_document(&doc);
    assert!(bytes.len() > 32, "the fixture should be large enough to truncate");
    for cut in 0..bytes.len() {
        assert!(decode_document(&bytes[..cut]).is_none(), "decoded a prefix of length {cut}");
    }
}

#[test]
fn trailing_bytes_do_not_decode() {
    let mut bytes = encode_document(&small(42));
    bytes.push(0);
    assert!(decode_document(&bytes).is_none());
}

#[test]
fn arbitrary_bytes_do_not_panic() {
    assert!(decode_document(&[]).is_none());
    assert!(decode_document(&[VERSION]).is_none());
    for seed in 0u32..512 {
        let mut x = seed.wrapping_mul(2654435761).wrapping_add(1);
        let mut bytes = vec![VERSION];
        for _ in 0..(seed % 64) {
            x = x.wrapping_mul(1103515245).wrapping_add(12345);
            bytes.push((x >> 16) as u8);
        }
        let _ = decode_document(&bytes);
    }
}

#[test]
fn an_empty_document_is_its_header_and_two_counts() {
    let bytes = encode_document(&Document { file: FileId(1), cfg_refs: Vec::new(), tables: Vec::new() });
    assert_eq!(bytes, vec![VERSION, 1, 0, 0, 0, 0, 0, 0, 0, 0, 0, 0, 0, 0, 0, 0, 0]);
}

#[test]
fn map_entries_out_of_order_are_not_a_document() {
    // A stream whose keys are out of order, with one key twice, reads as a
    // map in key order holding the later value, as a `BTreeMap` fills.
    let v = |i: i64| Value::new(Type::Int, Data::Int(i), Prov::none());
    let doc = Document {
        file: FileId(3),
        cfg_refs: Vec::new(),
        tables: vec![Table {
            path: vec!["t".into()],
            path_spans: vec![Span::new(0, 1)],
            array: false,
            site: site(3, Span::new(0, 1)),
            entries: vec![Entry {
                key: vec!["m".into()],
                key_spans: vec![Span::new(0, 1)],
                site: site(3, Span::new(0, 1)),
                value: Value::new(
                    Type::MapOf(Box::new(Type::Int)),
                    Data::MapOf(vec![("b".into(), v(1)), ("a".into(), v(2)), ("b".into(), v(3))]),
                    Prov::none(),
                ),
            }],
        }],
    };
    // A map's keys are written in increasing order, each once: bytes that
    // hold them otherwise were not written by the format.
    assert!(decode_document(&encode_document(&doc)).is_none());
}

#[test]
fn an_unknown_merge_rule_is_not_a_document() {
    let prov = Prov::new(Origin::Merged { prop: "flags".into(), rule: "nonsense" }, None);
    let doc = Document {
        file: FileId(3),
        cfg_refs: Vec::new(),
        tables: vec![Table {
            path: vec!["t".into()],
            path_spans: vec![Span::new(0, 1)],
            array: false,
            site: site(3, Span::new(0, 1)),
            entries: vec![Entry {
                key: vec!["k".into()],
                key_spans: vec![Span::new(0, 1)],
                site: site(3, Span::new(0, 1)),
                value: Value::new(Type::Str, Data::Str("x".into()), prov),
            }],
        }],
    };
    // Only the names of merge rules are written: another name was not.
    assert!(decode_document(&encode_document(&doc)).is_none());
}

#[test]
fn a_length_beyond_the_remaining_bytes_stops_the_read() {
    let bytes = [2u8, 0, 0, 0];
    let mut r = R { b: &bytes, i: 0 };
    assert_eq!(r.len(), None);
    let bytes = [2u8, 0, 0, 0, 7, 8];
    let mut r = R { b: &bytes, i: 0 };
    assert_eq!(r.len(), Some(2));
    assert_eq!(r.i, 4);
}

#[test]
fn every_merge_rule_name_maps_back() {
    for name in ["union", "append", "error_on_conflict", "must_equal", "replace", "max"] {
        assert_eq!(merge_rule(name), name);
    }
    assert_eq!(merge_rule("nonsense"), "unknown");
}

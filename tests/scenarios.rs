use betwixt_parse::tangle::{tangle_plan, TangleError, WriteOp};
use betwixt_parse::{
    betwixt, code, section, BetwixtParseError, Document, LineParseResult, LineParser,
    LineScanner, MarkdownParsers, Properties, PropertiesCollection, ScanResult, Section,
    SectionPart, TangleMode, BETWIXT_COM_TOKEN, BETWIXT_TOKEN, CLOSE_COM_TOKEN, CLOSE_TOKEN,
};

fn parsers(strict: bool) -> MarkdownParsers {
    MarkdownParsers {
        code: code("```", "```"),
        section: section('#'),
        betwixt: betwixt(BETWIXT_TOKEN, CLOSE_TOKEN),
        strict,
    }
}

fn parse(input: &[u8]) -> Document<'_> {
    match Document::from_contents(input, parsers(true)) {
        Ok(doc) => doc,
        Err(err) => panic!("unexpected error: {}", err.message()),
    }
}

#[test]
fn unclosed_fence_emits_nothing() {
    let input = b"intro\n```rust\nfn main() {}\n# still code\n";
    let doc = parse(input);
    assert_eq!(doc.code_blocks.len(), 0);
    assert_eq!(doc.root.children.len(), 0);
    let p = parsers(true);
    let mut scanner = LineScanner::new(input, true);
    assert_eq!(scanner.scan(&p).unwrap(), ScanResult::End);
}

#[test]
fn unclosed_annotation_emits_nothing() {
    let input = b"<?btxt filename='a.rs'\n```rust\nfn main() {}\n```\n## Later\n";
    let doc = parse(input);
    assert_eq!(doc.code_blocks.len(), 0);
    assert_eq!(doc.root.children.len(), 0);
}

#[test]
fn heading_inside_code_block_is_code() {
    let doc = parse(b"```\n# not a heading\n```\n");
    assert_eq!(doc.root.children.len(), 0);
    assert_eq!(doc.code_blocks.len(), 1);
    assert_eq!(doc.code_blocks[0].part.contents, &b"# not a heading\n"[..]);
    assert_eq!(doc.code_blocks[0].part.lang, None);
}

#[test]
fn indented_heading_is_text() {
    let doc = parse(b"  ## Not a heading\n\t# Nor this\n");
    assert_eq!(doc.root.children.len(), 0);
    let h = section('#');
    assert_eq!(h.parse(b"  ## Title\n"), LineParseResult::NoMatch);
}

#[test]
fn basic_tangle() {
    let doc = parse(b"## S\n<?btxt filename='a.rs' mode='overwrite' ?>\n```rust\nfn main() {}\n```\n");
    assert_eq!(doc.code_blocks.len(), 1);
    let block = &doc.code_blocks[0];
    assert_eq!(block.properties.filename, Some(&b"a.rs"[..]));
    assert_eq!(block.properties.mode, Some(TangleMode::Overwrite));
    assert_eq!(block.part.contents, &b"fn main() {}\n"[..]);
    assert_eq!(block.part.lang, Some(&b"rust"[..]));
    assert_eq!(doc.root.children.len(), 1);
    assert_eq!(doc.root.children[0].code_block_indexes, vec![0]);
}

#[test]
fn language_override() {
    let doc = parse(
        b"<?btxt filename='g' ?>\n<?btxt+python filename='py' ?>\n```python\nx = 1\n```\n```rust\nlet y = 2;\n```\n",
    );
    assert_eq!(doc.code_blocks.len(), 2);
    assert_eq!(doc.code_blocks[0].properties.filename, Some(&b"py"[..]));
    assert_eq!(doc.code_blocks[1].properties.filename, Some(&b"g"[..]));
}

#[test]
fn sibling_insulation() {
    let doc = parse(b"<?btxt filename='root' ?>\n## A\n<?btxt filename='a' ?>\n## B\n```rust\nb\n```\n");
    assert_eq!(doc.code_blocks.len(), 1);
    assert_eq!(doc.code_blocks[0].properties.filename, Some(&b"root"[..]));
    let doc = parse(b"## A\n<?btxt filename='a' ?>\n## B\n```rust\nb\n```\n");
    assert_eq!(doc.code_blocks[0].properties.filename, None);
    assert_eq!(doc.root.children[1].code_block_indexes, vec![0]);
}

#[test]
fn level_jump_attaches_to_nearest_shallower() {
    let doc = parse(b"## A\n##### Deep\n```\nin deep\n```\n## C\n### D\n");
    let root = &doc.root;
    assert_eq!(root.children.len(), 2);
    assert_eq!(root.children[0].part.heading, Some(&b"A"[..]));
    assert_eq!(root.children[0].children.len(), 1);
    assert_eq!(root.children[0].children[0].part.heading, Some(&b"Deep"[..]));
    assert_eq!(root.children[0].children[0].part.level, 5);
    assert_eq!(root.children[0].children[0].code_block_indexes, vec![0]);
    assert_eq!(root.children[1].part.heading, Some(&b"C"[..]));
    assert_eq!(root.children[1].children.len(), 1);
    assert_eq!(root.children[1].children[0].part.level, 3);
}

#[test]
fn inline_code_annotation() {
    let doc = parse(
        b"<?btxt+python filename='x.py' code=|||print(1)||| ?>\n```python\nprint(2)\n```\n",
    );
    assert_eq!(doc.code_blocks.len(), 2);
    let inline = &doc.code_blocks[0];
    assert_eq!(inline.part.contents, &b"print(1)"[..]);
    assert_eq!(inline.part.lang, Some(&b"python"[..]));
    assert_eq!(inline.properties.filename, Some(&b"x.py"[..]));
    assert_eq!(inline.properties.code, None);
    let later = &doc.code_blocks[1];
    assert_eq!(later.part.contents, &b"print(2)\n"[..]);
    assert_eq!(later.properties.filename, Some(&b"x.py"[..]));
    assert_eq!(later.properties.code, None);
}

#[test]
fn strict_mode_diagnostic() {
    let input = b"line one\nline two\nline three\n<?btxt filename='foo'\ntog='bad' ?>";
    match Document::from_contents(&input[..], parsers(true)) {
        Err(BetwixtParseError::InvalidProperties { line_start, line_end, line_text }) => {
            assert_eq!(line_start, 4);
            assert_eq!(line_end, 5);
            assert_eq!(line_text, &b"<?btxt filename='foo'\ntog='bad' ?>"[..]);
        }
        _ => panic!("expected a syntax error"),
    }
    let doc = Document::from_contents(&input[..], parsers(false)).unwrap();
    assert_eq!(doc.code_blocks.len(), 0);
}

#[test]
fn lax_mode_skips_malformed_annotation() {
    let input = b"<?btxt filename='a' ?>\n<?btxt filename='b' bogus='c' ?>\n```\nx\n```\n";
    let doc = Document::from_contents(&input[..], parsers(false)).unwrap();
    assert_eq!(doc.code_blocks.len(), 1);
    assert_eq!(doc.code_blocks[0].properties.filename, Some(&b"a"[..]));
}

#[test]
fn ignored_blocks_are_dropped() {
    let doc = parse(b"<?btxt ignore=true ?>\n```\nx\n```\n<?btxt code='y' ?>\n## S\n<?btxt ignore=false ?>\n```\nz\n```\n");
    assert_eq!(doc.code_blocks.len(), 1);
    assert_eq!(doc.code_blocks[0].part.contents, &b"z\n"[..]);
    assert_eq!(doc.code_blocks[0].properties.ignore, Some(false));
    for block in doc.code_blocks.iter() {
        assert_ne!(block.properties.ignore, Some(true));
    }
    assert_eq!(doc.root.code_block_indexes.len(), 0);
}

#[test]
fn emission_order_follows_input() {
    let input = b"```\na\n```\n## S\n<?btxt code='b' ?>\n### T\n```\nc\n```\n## U\n```\nd\n```\n";
    let doc = parse(input);
    let contents: Vec<&[u8]> = doc.code_blocks.iter().map(|c| c.part.contents).collect();
    assert_eq!(contents, vec![&b"a\n"[..], &b"b"[..], &b"c\n"[..], &b"d\n"[..]]);
    let mut last = 0usize;
    for block in doc.code_blocks.iter() {
        let start = block.part.contents.as_ptr() as usize - input.as_ptr() as usize;
        assert!(start + block.part.contents.len() <= input.len());
        assert!(start >= last);
        last = start;
    }
}

fn check_levels(s: &Section) {
    for c in s.children.iter() {
        assert!(c.part.level > s.part.level);
        check_levels(c);
    }
}

#[test]
fn levels_increase_down_the_tree() {
    let doc = parse(b"# A\n### B\n## C\n#### D\n# E\n## F\n");
    assert_eq!(doc.root.part.level, 0);
    assert_eq!(doc.root.children.len(), 2);
    check_levels(&doc.root);
    let a = &doc.root.children[0];
    assert_eq!(a.children.len(), 2);
    assert_eq!(a.children[1].part.heading, Some(&b"C"[..]));
    assert_eq!(a.children[1].children[0].part.heading, Some(&b"D"[..]));
}

#[test]
fn property_shadowing_in_nested_sections() {
    let doc = parse(
        b"<?btxt filename='outer' tag='t' ?>\n```\none\n```\n## Inner\n<?btxt filename='inner' ?>\n```\ntwo\n```\n# Back\n```\nthree\n```\n",
    );
    assert_eq!(doc.code_blocks[0].properties.filename, Some(&b"outer"[..]));
    assert_eq!(doc.code_blocks[1].properties.filename, Some(&b"inner"[..]));
    assert_eq!(doc.code_blocks[1].properties.tag, Some(&b"t"[..]));
    assert_eq!(doc.code_blocks[2].properties.filename, Some(&b"outer"[..]));
}

#[test]
fn repeated_annotation_changes_nothing() {
    let once = parse(b"<?btxt filename='f' mode='append' ?>\n```\nx\n```\n");
    let twice = parse(
        b"<?btxt filename='f' mode='append' ?>\n<?btxt filename='f' mode='append' ?>\n```\nx\n```\n",
    );
    assert_eq!(once.code_blocks[0].properties, twice.code_blocks[0].properties);
    assert_eq!(once.code_blocks[0].part.contents, twice.code_blocks[0].part.contents);
}

#[test]
fn deep_marker_runs_are_not_headings() {
    let h = section('#');
    assert_eq!(h.parse(b"########## Ten\n"), LineParseResult::NoMatch);
    assert_eq!(
        h.parse(b"######### Nine\n"),
        LineParseResult::Matched(ScanResult::Section(SectionPart {
            heading: Some(&b"Nine"[..]),
            level: 9
        }))
    );
    assert_eq!(h.parse(b"##\n"), LineParseResult::NoMatch);
    assert_eq!(h.parse(b"## \n"), LineParseResult::NoMatch);
    assert_eq!(h.parse(b"##Title\n"), LineParseResult::NoMatch);
    assert_eq!(h.parse(b"## Title"), LineParseResult::NoMatch);
}

#[test]
fn fence_recogniser_outcomes() {
    let c = code("```", "```");
    assert_eq!(c.parse(b"text\n"), LineParseResult::NoMatch);
    assert_eq!(c.parse(b"```rust\n"), LineParseResult::PartialMatch);
    assert_eq!(c.parse(b"```rust x\n"), LineParseResult::NoMatch);
    assert_eq!(
        c.parse(b"```  \nbody\n```  \n"),
        LineParseResult::Matched(ScanResult::Code(betwixt_parse::CodePart {
            contents: &b"body\n"[..],
            lang: None
        }))
    );
    assert_eq!(c.parse(b"```\nbody\n```"), LineParseResult::PartialMatch);
    assert_eq!(
        c.parse(b"```\nlet s = x```\n```\n"),
        LineParseResult::Matched(ScanResult::Code(betwixt_parse::CodePart {
            contents: &b"let s = x```\n"[..],
            lang: None
        }))
    );
    let nested = code("'''", "'''");
    assert_eq!(
        nested.parse(b"'''md\n```\n'''\n"),
        LineParseResult::Matched(ScanResult::Code(betwixt_parse::CodePart {
            contents: &b"```\n"[..],
            lang: Some(&b"md"[..])
        }))
    );
}

#[test]
fn annotation_grammar() {
    let b = betwixt(BETWIXT_TOKEN, CLOSE_TOKEN);
    assert_eq!(b.parse(b"plain\n"), LineParseResult::NoMatch);
    assert_eq!(b.parse(b"<?btxt filename='x'\n"), LineParseResult::PartialMatch);
    assert_eq!(b.parse(b"<?btxt filename='x' filename='y' ?>"), LineParseResult::InvalidMatch);
    assert_eq!(b.parse(b"<?btxt mode='sideways' ?>"), LineParseResult::InvalidMatch);
    assert_eq!(b.parse(b"<?btxt ignore=maybe ?>"), LineParseResult::InvalidMatch);
    assert_eq!(b.parse(b"<?btxt filename='x' junk ?>"), LineParseResult::InvalidMatch);
    assert_eq!(b.parse(b"<?btxt filename='x ?>"), LineParseResult::InvalidMatch);
    let expected = Properties {
        filename: Some(&b"x"[..]),
        mode: Some(TangleMode::Insert(&b"HERE"[..])),
        ..Default::default()
    };
    assert_eq!(
        b.parse(b"<?btxt\n  mode=\"insert[HERE]\"\n  filename='x'\n?>"),
        LineParseResult::Matched(ScanResult::Properties((None, expected)))
    );
    let comment = betwixt(BETWIXT_COM_TOKEN, CLOSE_COM_TOKEN);
    assert_eq!(
        comment.parse(b"<!--btxt+go tag='t' -->"),
        LineParseResult::Matched(ScanResult::Properties((
            Some(&b"go"[..]),
            Properties { tag: Some(&b"t"[..]), ..Default::default() }
        )))
    );
}

#[test]
fn tangle_mode_round_trip() {
    for text in [&b"overwrite"[..], b"append", b"prepend", b"insert[x]", b"insert[<< a b >>]"] {
        let (rest, mode) = TangleMode::from_bytes(text).unwrap();
        assert!(rest.is_empty());
        assert_eq!(mode.to_bytes(), text.to_vec());
    }
    assert_eq!(TangleMode::Insert(b"m").to_bytes(), b"insert[m]".to_vec());
    assert_eq!(TangleMode::default(), TangleMode::Append);
    for bad in [&b""[..], b"Append", b"insert[a]b]", b"insert[a", b"insert(a)", b"overwrite "] {
        assert_eq!(TangleMode::from_bytes(bad), Err(BetwixtParseError::NoMatch));
    }
    assert_eq!(BetwixtParseError::NoMatch.message(), "no property match");
}

#[test]
fn properties_merge_child_wins() {
    let mut child = Properties {
        filename: Some(&b"child"[..]),
        code: Some(&b"body"[..]),
        ..Default::default()
    };
    let parent = Properties {
        filename: Some(&b"parent"[..]),
        tag: Some(&b"t"[..]),
        mode: Some(TangleMode::Prepend),
        ignore: Some(false),
        prefix: Some(&b"pre"[..]),
        postfix: Some(&b"post"[..]),
        code: Some(&b"other"[..]),
    };
    child.merge(&parent);
    assert_eq!(
        child,
        Properties {
            filename: Some(&b"child"[..]),
            tag: Some(&b"t"[..]),
            mode: Some(TangleMode::Prepend),
            ignore: Some(false),
            prefix: Some(&b"pre"[..]),
            postfix: Some(&b"post"[..]),
            code: Some(&b"body"[..]),
        }
    );
}

#[test]
fn properties_collection_scopes() {
    let mut env = PropertiesCollection::empty();
    env.update(None, Properties { filename: Some(&b"g"[..]), tag: Some(&b"t"[..]), ..Default::default() });
    env.update(Some(&b"py"[..]), Properties { filename: Some(&b"p"[..]), ..Default::default() });
    env.update(Some(&b"py"[..]), Properties { prefix: Some(&b"#"[..]), ..Default::default() });
    env.update(None, Properties { tag: Some(&b"u"[..]), ..Default::default() });
    let py = env.get_code_props(Some(&b"py"[..]));
    assert_eq!(py.filename, Some(&b"p"[..]));
    assert_eq!(py.prefix, Some(&b"#"[..]));
    assert_eq!(py.tag, Some(&b"u"[..]));
    let rs = env.get_code_props(Some(&b"rs"[..]));
    assert_eq!(rs.filename, Some(&b"g"[..]));
    assert_eq!(rs.prefix, None);
    assert_eq!(env.get_code_props(None), rs);
    assert_eq!(env.languages.len(), 1);
    let copy = env.copy();
    assert_eq!(copy.get_code_props(Some(&b"py"[..])), py);
}

#[test]
fn new_section_is_empty() {
    let s = Section::new(
        SectionPart { heading: Some(&b"H"[..]), level: 2 },
        PropertiesCollection::empty(),
    );
    assert_eq!(s.part.level, 2);
    assert!(s.children.is_empty());
    assert!(s.code_block_indexes.is_empty());
}

#[test]
fn tangle_plan_selects_and_frames_blocks() {
    let input = b"<?btxt filename='a.go' mode='overwrite' tag='go' pre='package main\n' post='//end' ?>\n```go\nfunc f() {}\n```\n<?btxt tag='other' ?>\n```\nskipped\n```\n";
    let doc = parse(input);
    let ops = tangle_plan(&doc.code_blocks, Some(&b"go"[..]), true).unwrap();
    assert_eq!(
        ops,
        vec![WriteOp {
            filename: &b"a.go"[..],
            mode: TangleMode::Overwrite,
            prefix: Some(&b"package main\n"[..]),
            contents: &b"func f() {}\n"[..],
            postfix: Some(&b"//end"[..]),
        }]
    );
    assert_eq!(tangle_plan(&doc.code_blocks, None, true).unwrap().len(), 2);
    let doc = parse(b"```\nno mode\n```\n");
    assert_eq!(tangle_plan(&doc.code_blocks, None, true), Err(TangleError::MissingMode));
    assert_eq!(tangle_plan(&doc.code_blocks, None, false), Ok(vec![]));
    let doc = parse(b"<?btxt mode='append' ?>\n```\nno file\n```\n");
    assert_eq!(tangle_plan(&doc.code_blocks, None, true), Err(TangleError::MissingFilename));
    assert_eq!(tangle_plan(&doc.code_blocks, None, false), Ok(vec![]));
}

#[test]
fn empty_input_gives_empty_document() {
    let doc = parse(b"");
    assert!(doc.code_blocks.is_empty());
    assert!(doc.root.children.is_empty());
    assert_eq!(doc.root.part.heading, None);
    assert_eq!(doc.root.part.level, 0);
    let p = parsers(true);
    let mut scanner = LineScanner::new(b"", true);
    assert_eq!(scanner.scan(&p).unwrap(), ScanResult::End);
    assert_eq!(scanner.scan(&p).unwrap(), ScanResult::End);
}

#[test]
fn last_line_without_newline() {
    let doc = parse(b"# Title\n<?btxt filename='f' ?>");
    assert_eq!(doc.root.children.len(), 1);
    assert_eq!(doc.root.children[0].properties.global.filename, Some(&b"f"[..]));
    let doc = parse(b"# Title");
    assert!(doc.root.children.is_empty());
}

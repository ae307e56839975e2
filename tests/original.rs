use betwixt_parse::{
    betwixt, code, section, Document, LineParseResult, LineParser, LineScanner, MarkdownParsers,
    Properties, ScanResult, TangleMode, BETWIXT_TOKEN, CLOSE_TOKEN,
};

fn github_parsers(strict: bool) -> MarkdownParsers {
    MarkdownParsers {
        code: code("```", "```"),
        section: section('#'),
        betwixt: betwixt(BETWIXT_TOKEN, CLOSE_TOKEN),
        strict,
    }
}

#[test]
fn test_betwixt() {
    let btxt = &b"<?btxt+rust tag='test1'
 mode=\"overwrite\" filename='test/src/lib.rs' code=|||
print('foo')||| ignore=false  ?>";
    let betwixt = betwixt(BETWIXT_TOKEN, CLOSE_TOKEN);
    let res = betwixt.parse(&btxt[..]);
    assert!(
        matches!(res, LineParseResult::Matched(_)),
        "valid betwixt body should parse successfully"
    );
    assert_eq!(
        res,
        LineParseResult::Matched(ScanResult::Properties((
            Some(&b"rust"[..]),
            Properties {
                tag: Some(&b"test1"[..]),
                mode: Some(TangleMode::Overwrite),
                filename: Some(&b"test/src/lib.rs"[..]),
                code: Some(
                    &b"
print('foo')"[..]
                ),
                ignore: Some(false),
                ..Default::default()
            }
        )))
    );
    let btxt = &b"<?btxt pre=|||package main
import \"fmt\"
func main() {||| post='}' ?>";
    let res = betwixt.parse(&btxt[..]);
    assert!(matches!(res, LineParseResult::Matched(_)));
    assert_eq!(
        res,
        LineParseResult::Matched(ScanResult::Properties((
            None,
            Properties {
                prefix: Some(
                    &b"package main
import \"fmt\"
func main() {"[..]
                ),
                postfix: Some(&b"}"[..]),
                ..Default::default()
            }
        )))
    );
}

#[test]
fn test_betwixt_sad_path() {
    let btxt = &b"<?btxt tag=\"test\" filename='moop' mode= append' ?>";
    let res = betwixt(BETWIXT_TOKEN, CLOSE_TOKEN).parse(&btxt[..]);
    assert!(
        matches!(res, LineParseResult::InvalidMatch),
        "invalid body should not parse"
    );
}

#[test]
fn test_strict_mode_properties() {
    let contents = &b"Some stuff that doesn't matter
<?btxt filename='foo' tog='bad' ?>"[..];
    let parsers = github_parsers(true);
    assert!(Document::from_contents(contents, parsers).is_err());
}

#[test]
fn test_header_sections() {
    let contents = &b"
Welcome!

## This is some project
with some random body crap

## Help

More content
";
    let parser = github_parsers(true);
    let mut scanner = LineScanner::new(&contents[..], true);
    let results = scanner.scan(&parser);
    assert!(results.is_ok());
    let results = results.unwrap();
    match results {
        ScanResult::Section(section) => {
            assert_eq!(Some(&b"This is some project"[..]), section.heading);
        }
        _ => panic!("invalid scan result"),
    }
    let results = scanner.scan(&parser);
    assert!(results.is_ok());
    let results = results.unwrap();
    match results {
        ScanResult::Section(section) => assert_eq!(Some(&b"Help"[..]), section.heading),
        _ => panic!("invalid scan result"),
    }
}

#[test]
fn test_code_blocks() {
    let parser = github_parsers(true);
    let contents = &b"
This is a big ol' code block
''
With some potential gotchas!
```rust
```this doesn't count
// this is still code
```
And this isn't code anymore
";
    let mut scanner = LineScanner::new(&contents[..], true);
    let results = scanner.scan(&parser);
    assert!(results.is_ok());
    match &results.as_ref().unwrap() {
        ScanResult::Code(code) => {
            assert!(code.lang.is_some());
            assert_eq!(code.lang.unwrap(), &b"rust"[..]);
            assert_eq!(
                code.contents,
                &b"```this doesn't count
// this is still code
"[..]
            );
        }
        _ => panic!("unexpected scan result"),
    }
}

#[test]
fn test_tangle_mode() {
    let overwrite = &b"overwrite";
    let parsed = TangleMode::from_bytes(&overwrite[..]);
    assert!(
        parsed.is_ok(),
        "parsing valid string 'overwrite' should succeed"
    );
    assert!(
        matches!(parsed.unwrap().1, TangleMode::Overwrite),
        "parsing valid 'overwrite' should yield Overwrite mode"
    );
    let append = &b"append";
    let parsed = TangleMode::from_bytes(&append[..]);
    assert!(
        parsed.is_ok(),
        "parsing valid string 'append' should succeed"
    );
    assert!(
        matches!(parsed.unwrap().1, TangleMode::Append),
        "parsing 'append' should yield Append mode"
    );
    let prepend = &b"prepend";
    let parsed = TangleMode::from_bytes(&prepend[..]);
    assert!(
        parsed.is_ok(),
        "parsing valid string 'prepend' should succeed"
    );
    assert!(
        matches!(parsed.unwrap().1, TangleMode::Prepend),
        "parsing 'prepend' should yield Prepend mode"
    );
    let insert = &b"insert[<<>> INSERT HERE <<>>]";
    let parsed = TangleMode::from_bytes(&insert[..]);
    assert!(
        parsed.is_ok(),
        "parsing valid string 'insert[<<>> INSERT HERE <<>>] should succeed"
    );
    assert!(matches!(
        parsed.unwrap().1,
        TangleMode::Insert(b"<<>> INSERT HERE <<>>")
    ));
    let excess = &b"appends";
    let parsed = TangleMode::from_bytes(&excess[..]);
    assert!(
        parsed.is_err(),
        "parsing invalid string 'appends' should produce parse failure"
    );
    let partial = &b"insert[]";
    let parsed = TangleMode::from_bytes(&partial[..]);
    assert!(
        parsed.is_err(),
        "partial invalid string 'insert[]' should product parsed failure"
    );
}

#[test]
fn test_section_composition() {
    let parsers = github_parsers(true);
    let markdown = &b"Test document
<?btxt filename='test.rs' ?> some other stuff
## Section 2A
#And not a new section-
```rust
println!(\"test\");
```
### Section 3A
some content that we don't care about
<?btxt filename='foo.rs'?>
```rust
// some comment goes here
```
##### Section 5A

  ## This doesn't count as a section
  foo bar baz
<?btxt+python filename='foo.py' code=|||
print('this is inline python')
# But it doesn't show up in the markdown!
||| ?>
##### Section 5B

```python
# This code block should no longer have filename='foo.py'
@ As we're now in a sibling of those props
```

#### Section 4A
## Section 2B
```python
print('hello world')
```

This code block shouldn't be included
<?btxt ignore=true ?>
```silly
PrInTlN('foo');
```
Ignore all this fluff";
    let doc = Document::from_contents(&markdown[..], parsers).unwrap();
    let root = doc.root;
    assert_eq!(2, root.children.len());
    // children[0] Section 2A
    assert_eq!(Some(&b"Section 2A"[..]), root.children[0].part.heading);
    assert_eq!(root.children[0].code_block_indexes.len(), 1);
    assert_eq!(
        doc.code_blocks[root.children[0].code_block_indexes[0]]
            .properties
            .filename,
        Some(&b"test.rs"[..])
    );
    assert_eq!(
        doc.code_blocks[root.children[0].code_block_indexes[0]]
            .part
            .contents,
        &b"println!(\"test\");\n"[..]
    );
    assert_eq!(root.children[0].children.len(), 1);
    assert_eq!(
        Some(&b"Section 3A"[..]),
        root.children[0].children[0].part.heading
    );
    assert_eq!(root.children[0].children[0].children.len(), 3);
    assert_eq!(root.children[0].children[0].code_block_indexes.len(), 1);
    assert_eq!(
        doc.code_blocks[root.children[0].children[0].code_block_indexes[0]]
            .properties
            .filename,
        Some(&b"foo.rs"[..])
    );
    assert_eq!(
        root.children[0].children[0].children[0]
            .code_block_indexes
            .len(),
        1
    );

    assert_eq!(
        root.children[0].children[0].children[0].part.heading,
        Some(&b"Section 5A"[..])
    );
    assert_eq!(
        doc.code_blocks[root.children[0].children[0].children[0].code_block_indexes[0]]
            .properties
            .filename,
        Some(&b"foo.py"[..])
    );
    assert_eq!(
        doc.code_blocks[root.children[0].children[0].children[1].code_block_indexes[0]]
            .properties
            .filename,
        Some(&b"foo.rs"[..])
    );
    // children[1] Section 2B
    assert_eq!(Some(&b"Section 2B"[..]), root.children[1].part.heading);
    assert_eq!(1, root.children[1].code_block_indexes.len());
    assert_eq!(
        Some(&b"test.rs"[..]),
        doc.code_blocks[root.children[1].code_block_indexes[0]]
            .properties
            .filename
    );
}

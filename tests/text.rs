use std::sync::Arc;

use rope::Text;

fn three_lines() -> Text {
    let joe = Text::from_str("Hello").concat(&Text::from_str(" Joe!\n"));
    let mike = Text::from_str("Hello").concat(&Text::from_str(" Mike!\n"));
    let robert = Text::from_str("Hello ").concat(&Text::from_str("Robert!\n"));
    joe.concat(&mike.concat(&robert))
}

#[test]
fn char_at() {
    let r = Text::from_str("Hello").concat(&Text::from_str(" Joe!"));
    assert_eq!(Some('!'), r.char_at(9));
}

#[test]
fn concat() {
    let r = three_lines();
    assert_eq!("Hello Joe!\nHello Mike!\nHello Robert!\n", r.to_string());
}

#[test]
fn substr() {
    let r = three_lines();
    assert_eq!("o Mike!\nHe", r.substr(15, 10).to_string());
}

#[test]
fn lines() {
    let r = three_lines();
    assert_eq!(
        "Hello Joe!\nHello Mike!\nHello Robert!\n",
        r.from_line(0).unwrap().to_string()
    );
    assert_eq!(
        "Hello Mike!\nHello Robert!\n",
        r.from_line(1).unwrap().to_string()
    );
    assert_eq!("Hello Robert!\n", r.from_line(2).unwrap().to_string());
    assert_eq!("Hello Joe!\n", r.line(0).unwrap().to_string());
    assert_eq!("Hello Mike!\n", r.line(1).unwrap().to_string());
    assert_eq!("Hello Robert!\n", r.line(2).unwrap().to_string());
}

#[test]
fn iterators() {
    let r = Text::from_str("Hello Joe!\nHello Mike!\nHello Robert!\nHello Bjarne!\n");
    let mut it = r.iter_lines();
    assert_eq!("Hello Joe!\n", it.next().unwrap());
    assert_eq!("Hello Mike!\n", it.next().unwrap());
    assert_eq!("Hello Robert!\n", it.next().unwrap());
    assert_eq!("Hello Bjarne!\n", it.next().unwrap());
    assert_eq!(None, it.next());
}

#[test]
fn hello_joe_scenario() {
    let r = Text::from_str("Hello").concat(&Text::from_str(" Joe!"));
    assert_eq!("Hello Joe!", r.to_string());
    assert_eq!(10, r.len());
    assert_eq!(None, r.char_at(10));
}

#[test]
fn empty_text() {
    let t = Text::new();
    assert_eq!(0, t.len());
    assert_eq!(0, t.lines());
    assert_eq!("", t.to_string());
    assert_eq!(None, t.char_at(0));
    assert_eq!(Some(0), t.line_pos(0));
    assert_eq!(None, t.line_pos(1));
    assert_eq!("", t.line(0).unwrap().to_string());
}

#[test]
fn round_trip_long_and_multiline() {
    let long: String = std::iter::repeat("abcdefghij").take(250).collect();
    let t = Text::from_str(&long);
    assert_eq!(2500, t.len());
    assert_eq!(long, t.to_string());
    assert!(!matches!(t, Text::Leaf(_)));

    let text = "first\nsecond line\n\nfourth\nno newline";
    let t = Text::from_str(text);
    assert_eq!(text, t.to_string());
    assert_eq!(4, t.lines());
}

#[test]
fn short_chunk_is_one_leaf() {
    assert!(matches!(Text::from_str("Hello\n"), Text::Leaf(_)));
    assert!(matches!(Text::from_str("Hello"), Text::Leaf(_)));
    assert!(matches!(Text::from_str("He\nllo"), Text::Branch(_)));
}

#[test]
fn characters_not_bytes() {
    let t = Text::from_str("h\u{e9}llo w\u{f6}rld\n");
    assert_eq!(12, t.len());
    assert_eq!(Some('\u{e9}'), t.char_at(1));
    assert_eq!(Some('\u{f6}'), t.char_at(7));
    assert_eq!("\u{e9}llo", t.substr(1, 4).to_string());
}

#[test]
fn concat_adds_lengths() {
    let a = Text::from_str("abc\ndef");
    let b = Text::from_str("\nxyz");
    let r = a.concat(&b);
    assert_eq!(a.len() + b.len(), r.len());
    assert_eq!("abc\ndef\nxyz", r.to_string());
    assert_eq!(2, r.lines());
    assert_eq!("abc\ndef", a.concat(&Text::new()).to_string());
    assert_eq!("\nxyz", Text::new().concat(&b).to_string());
}

#[test]
fn substr_clamps_past_end() {
    let r = three_lines();
    assert_eq!(37, r.len());
    assert_eq!("Robert!\n", r.substr(29, 100).to_string());
    assert_eq!("", r.substr(50, 3).to_string());
    assert_eq!("", r.substr(37, 3).to_string());
    assert_eq!(r.to_string(), r.substr(0, usize::MAX).to_string());
    assert_eq!("", r.substr(usize::MAX, usize::MAX).to_string());
}

#[test]
fn take_left_and_right() {
    let r = three_lines();
    let (a, b) = r.take_left(5);
    assert_eq!("Hello", a.to_string());
    assert_eq!(" Joe!\nHello Mike!\nHello Robert!\n", b.to_string());
    let (a, b) = r.take_left(100);
    assert_eq!(r.to_string(), a.to_string());
    assert_eq!("", b.to_string());
    let (a, b) = r.take_right(8);
    assert_eq!("Hello Joe!\nHello Mike!\nHello ", a.to_string());
    assert_eq!("Robert!\n", b.to_string());
    let (a, b) = r.take_right(100);
    assert_eq!("", a.to_string());
    assert_eq!(r.to_string(), b.to_string());
}

#[test]
fn insert_and_delete() {
    let t = Text::from_str("Hello world\n");
    let u = Text::from_str("big ");
    assert_eq!("Hello big world\n", t.insert(6, &u).to_string());
    assert_eq!("big Hello world\n", t.insert(0, &u).to_string());
    assert_eq!("Hello world\nbig ", t.insert(12, &u).to_string());
    assert_eq!("Hello world\nbig ", t.insert(40, &u).to_string());
    assert_eq!("Hello\n", t.delete(5, 6).to_string());
    assert_eq!("world\n", t.delete(0, 6).to_string());
    assert_eq!("Hello", t.delete(5, 100).to_string());
    assert_eq!("Hello world\n", t.delete(30, 2).to_string());
    assert_eq!("Hello", t.delete(5, usize::MAX).to_string());
}

#[test]
fn line_positions() {
    let r = three_lines();
    assert_eq!(3, r.lines());
    assert_eq!(Some(0), r.line_pos(0));
    assert_eq!(Some(11), r.line_pos(1));
    assert_eq!(Some(23), r.line_pos(2));
    assert_eq!(None, r.line_pos(3));
    assert!(r.from_line(3).is_none());
    assert!(r.line(3).is_none());
}

#[test]
fn line_start_inside_a_branch() {
    let r = Text::from_str("a\nb").concat(&Text::from_str("c\nd"));
    assert_eq!("a\nbc\nd", r.to_string());
    assert_eq!(Some(2), r.line_pos(1));
    assert_eq!("a\n", r.line(0).unwrap().to_string());
    assert_eq!("bc\n", r.line(1).unwrap().to_string());
    assert_eq!("bc\nd", r.from_line(1).unwrap().to_string());
    let raw = Text::Leaf(Arc::new("x\ny\nz\n".to_string()));
    assert_eq!(Some(4), raw.line_pos(2));
    assert_eq!("y\n", raw.line(1).unwrap().to_string());
}

#[test]
fn equality_is_structural() {
    let r = three_lines();
    let copy = r.clone();
    assert!(r == r);
    assert!(r == copy);
    assert!(three_lines() == r);
    let leaf = Text::Leaf(Arc::new("ab\ncd".to_string()));
    let split = Text::from_str("ab\ncd");
    assert_eq!(leaf.to_string(), split.to_string());
    assert!(leaf != split);
    assert!(Text::from_str("abc") == Text::Leaf(Arc::new("abc".to_string())));
    assert!(Text::from_str("abc") != Text::from_str("abd"));
}

#[test]
fn leaf_walk() {
    let r = Text::from_str("one\ntwo\nthree");
    let mut it = r.iter();
    let mut all = String::new();
    let mut count = 0;
    while let Some(chunk) = it.next() {
        all.push_str(&chunk);
        count += 1;
    }
    assert_eq!("one\ntwo\nthree", all);
    assert_eq!(3, count);
}

#[test]
fn line_walk_keeps_partial_last_line() {
    let r = Text::from_str("alpha\nbeta\ngam").concat(&Text::from_str("ma"));
    let mut it = r.iter_lines();
    assert_eq!(Some("alpha\n".to_string()), it.next());
    assert_eq!(Some("beta\n".to_string()), it.next());
    assert_eq!(Some("gamma".to_string()), it.next());
    assert_eq!(None, it.next());
}

#[test]
fn from_strings_joins_in_order() {
    let items = vec!["Hello ".to_string(), "Joe!\nHello".to_string(), String::new(), " Mike!\n".to_string()];
    let t = Text::from_strings(items);
    assert_eq!("Hello Joe!\nHello Mike!\n", t.to_string());
    assert_eq!(2, t.lines());
    assert_eq!(Some(11), t.line_pos(1));
    assert_eq!("", Text::from_strings(Vec::new()).to_string());
}

#[test]
fn concat_with_empty_side_keeps_branch() {
    let b = Text::from_str("ab\ncd");
    assert!(!b.is_leaf());
    assert!(b.concat(&Text::new()) == b);
    assert!(Text::new().concat(&b) == b);
}

#[test]
fn depth_of_built_trees() {
    assert_eq!(0, Text::from_str("abc").depth());
    let t = Text::from_str("a\nb\nc\n");
    assert!(t.depth() >= 1);
    assert!(Text::from_str("abc").is_leaf());
}

#[test]
fn last_terminated_line_stops_at_its_newline() {
    let t = Text::from_str("a\nb");
    assert_eq!(1, t.lines());
    assert_eq!("a\n", t.line(0).unwrap().to_string());
    assert!(t.line(1).is_none());
    let t = Text::from_str("x\ny\n");
    assert_eq!("y\n", t.line(1).unwrap().to_string());
}

#[test]
fn from_chars_joins_in_order() {
    let t = Text::from_chars(vec!['a', 'b', '\n', 'c']);
    assert_eq!("ab\nc", t.to_string());
    assert_eq!(1, t.lines());
    assert_eq!("", Text::from_chars(Vec::new()).to_string());
}

#[test]
fn short_leaves_merge_and_newline_leaves_do_not() {
    let merged = Text::from_str("Hello").concat(&Text::from_str(" Joe!"));
    assert!(merged.is_leaf());
    let split = Text::from_str("Hello\n").concat(&Text::from_str("Joe!"));
    assert!(!split.is_leaf());
    assert_eq!(1, split.depth());
    assert!(Text::new().is_leaf());
}

#[test]
fn separately_built_ropes_compare_equal() {
    let a = Text::from_str("Hello Joe!\nHello Mike!\n");
    let b = Text::from_str("Hello Joe!\nHello Mike!\n");
    assert!(a == b);
    assert!(b == a);
}

#[test]
fn leaves_are_bounded_chunks() {
    let long: String = std::iter::repeat("0123456789").take(350).collect();
    let t = Text::from_str(&long).concat(&Text::from_str("end\nmore\n"));
    let mut it = t.iter();
    let mut all = String::new();
    while let Some(chunk) = it.next() {
        assert!(chunk.chars().count() <= 1000);
        let inner = chunk.chars().count();
        assert!(!chunk.chars().take(inner.saturating_sub(1)).any(|c| c == '\n'));
        all.push_str(&chunk);
    }
    assert_eq!(t.to_string(), all);
}

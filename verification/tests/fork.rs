use cstylegen::helper::fork::Fork;
use std::collections::BTreeMap;

fn chaotic<'a>(min_size: usize, items: Vec<(u8, Fork<'a, i32>)>) -> Fork<'a, i32> {
    let mut map = BTreeMap::new();
    for (k, v) in items {
        map.insert(k, v);
    }
    Fork::Chaotic { min_size, items: map }
}

fn run<'a>(prefix: &'a [u8], min_size: usize, remaining: Fork<'a, i32>) -> Fork<'a, i32> {
    Fork::Run { prefix, min_size, remaining: Box::new(remaining) }
}

fn empty<'a>(total_prefix: &'a [u8], value: i32, remaining: Fork<'a, i32>) -> Fork<'a, i32> {
    Fork::Empty { total_prefix, value, remaining: Box::new(remaining) }
}

fn end<'a>(prefix: &'a [u8], total_prefix: &'a [u8], value: i32) -> Fork<'a, i32> {
    Fork::End { prefix, total_prefix, value }
}

#[test]
fn basic_insert() {
    let mut fork = Fork::default();
    fork.insert(b"forsen", 1);
    fork.insert(b"xqc", 2);

    assert_eq!(
        fork,
        chaotic(3, vec![(b'f', end(b"orsen", b"forsen", 1)), (b'x', end(b"qc", b"xqc", 2))])
    );

    fork.insert(b"forsenL", 3);
    assert_eq!(
        fork,
        chaotic(
            3,
            vec![
                (b'f', run(b"orsen", 6, empty(b"forsen", 1, end(b"L", b"forsenL", 3)))),
                (b'x', end(b"qc", b"xqc", 2)),
            ]
        )
    );

    fork.insert(b"for", 4);
    assert_eq!(
        fork,
        chaotic(
            3,
            vec![
                (
                    b'f',
                    run(
                        b"or",
                        3,
                        empty(b"for", 4, run(b"sen", 6, empty(b"forsen", 1, end(b"L", b"forsenL", 3))))
                    )
                ),
                (b'x', end(b"qc", b"xqc", 2)),
            ]
        )
    );

    fork.insert(b"forsenE", 5);
    assert_eq!(
        fork,
        chaotic(
            3,
            vec![
                (
                    b'f',
                    run(
                        b"or",
                        3,
                        empty(
                            b"for",
                            4,
                            run(
                                b"sen",
                                6,
                                empty(
                                    b"forsen",
                                    1,
                                    chaotic(
                                        7,
                                        vec![
                                            (b'L', end(b"", b"forsenL", 3)),
                                            (b'E', end(b"", b"forsenE", 5)),
                                        ]
                                    )
                                )
                            )
                        )
                    )
                ),
                (b'x', end(b"qc", b"xqc", 2)),
            ]
        )
    );
}

#[test]
fn insert_run_empty() {
    let mut fork = Fork::new();

    fork.insert(b"applejuice", 1);
    assert_eq!(fork, end(b"applejuice", b"applejuice", 1));
    fork.insert(b"applepie", 1);
    assert_eq!(
        fork,
        run(
            b"apple",
            8,
            chaotic(
                8,
                vec![(b'j', end(b"uice", b"applejuice", 1)), (b'p', end(b"ie", b"applepie", 1))]
            )
        )
    );
    fork.insert(b"banana", 1);
    assert_eq!(
        fork,
        chaotic(
            6,
            vec![
                (
                    b'a',
                    run(
                        b"pple",
                        8,
                        chaotic(
                            8,
                            vec![
                                (b'j', end(b"uice", b"applejuice", 1)),
                                (b'p', end(b"ie", b"applepie", 1)),
                            ]
                        )
                    )
                ),
                (b'b', end(b"anana", b"banana", 1)),
            ]
        )
    );
    fork.insert(b"apple", 1);
    assert_eq!(
        fork,
        chaotic(
            5,
            vec![
                (
                    b'a',
                    run(
                        b"pple",
                        5,
                        empty(
                            b"apple",
                            1,
                            chaotic(
                                8,
                                vec![
                                    (b'j', end(b"uice", b"applejuice", 1)),
                                    (b'p', end(b"ie", b"applepie", 1)),
                                ]
                            )
                        )
                    )
                ),
                (b'b', end(b"anana", b"banana", 1)),
            ]
        )
    );
    fork.insert(b"a", 1);
    assert_eq!(
        fork,
        chaotic(
            1,
            vec![
                (
                    b'a',
                    empty(
                        b"a",
                        1,
                        run(
                            b"pple",
                            5,
                            empty(
                                b"apple",
                                1,
                                chaotic(
                                    8,
                                    vec![
                                        (b'j', end(b"uice", b"applejuice", 1)),
                                        (b'p', end(b"ie", b"applepie", 1)),
                                    ]
                                )
                            )
                        )
                    )
                ),
                (b'b', end(b"anana", b"banana", 1)),
            ]
        )
    );
}

#[test]
fn min_size() {
    let mut fork = Fork::Nil;
    let input = [
        "colors.accentcolor",
        "messages.backgrounds.regular",
        "messages.backgrounds.alternate",
        "messages.disabled",
        "messages.highlightanimationend",
        "messages.highlightanimationstart",
        "messages.selection",
        "messages.textcolors.regular",
        "messages.textcolors.caret",
        "messages.textcolors.link",
        "messages.textcolors.system",
        "messages.textcolors.chatplaceholder",
        "scrollbars.background",
        "scrollbars.highlights.highlight",
        "scrollbars.highlights.subscription",
        "scrollbars.thumb",
        "scrollbars.thumbselected",
        "splits.background",
        "splits.droppreview",
        "splits.droppreviewborder",
        "splits.droptargetrect",
        "splits.droptargetrectborder",
        "splits.header.border",
        "splits.header.focusedborder",
        "splits.header.background",
        "splits.header.focusedbackground",
        "splits.header.text",
        "splits.header.focusedtext",
        "splits.input.border",
        "splits.input.background",
        "splits.input.selection",
        "splits.input.focusedline",
        "splits.input.text",
        "splits.messageseperator",
        "splits.resizehandle",
        "splits.resizehandlebackground",
        "tabs.border",
        "tabs.dividerline",
        "tabs.highlighted.backgrounds.regular",
        "tabs.highlighted.backgrounds.hover",
        "tabs.highlighted.backgrounds.unfocused",
        "tabs.highlighted.line.regular",
        "tabs.highlighted.line.hover",
        "tabs.highlighted.line.unfocused",
        "tabs.highlighted.text",
        "tabs.newmessage.backgrounds.regular",
        "tabs.newmessage.backgrounds.hover",
        "tabs.newmessage.backgrounds.unfocused",
        "tabs.newmessage.line.regular",
        "tabs.newmessage.line.hover",
        "tabs.newmessage.line.unfocused",
        "tabs.newmessage.text",
        "tabs.regular.backgrounds.regular",
        "tabs.regular.backgrounds.hover",
        "tabs.regular.backgrounds.unfocused",
        "tabs.regular.line.regular",
        "tabs.regular.line.hover",
        "tabs.regular.line.unfocused",
        "tabs.regular.text",
        "tabs.selected.backgrounds.regular",
        "tabs.selected.backgrounds.hover",
        "tabs.selected.backgrounds.unfocused",
        "tabs.selected.line.regular",
        "tabs.selected.line.hover",
        "tabs.selected.line.unfocused",
        "tabs.selected.text",
        "tooltip.text",
        "tooltip.background",
        "window.text",
        "window.background",
        "window.borderunfocused",
        "window.borderfocused",
    ];

    let mut min_size = input[0].len();
    for item in input {
        fork.insert(item.as_bytes(), 1);
        min_size = min_size.min(item.len());
        assert_eq!(min_size, fork.min_size(), "When inserting {item}");
    }
}

#[test]
fn shape_does_not_depend_on_insertion_order() {
    let keys: [&[u8]; 6] = [b"forsen", b"xqc", b"forsenL", b"for", b"forsenE", b"f"];
    let mut a: Fork<i32> = Fork::new();
    for (i, k) in keys.iter().enumerate() {
        a.insert(k, i as i32);
    }
    let mut b: Fork<i32> = Fork::new();
    for (i, k) in keys.iter().enumerate().rev() {
        b.insert(k, i as i32);
    }
    assert_eq!(a, b);
    assert_eq!(a.min_size(), 1);
}

#[test]
fn reinserting_keeps_the_shape() {
    let mut f: Fork<i32> = Fork::new();
    f.insert(b"apple", 1);
    f.insert(b"applepie", 2);
    f.insert(b"banana", 3);
    let mut g: Fork<i32> = Fork::new();
    g.insert(b"apple", 1);
    g.insert(b"applepie", 2);
    g.insert(b"banana", 3);
    g.insert(b"applepie", 2);
    assert_eq!(f, g);
}

#[test]
fn new_value_keeps_the_structure() {
    let mut f: Fork<i32> = Fork::new();
    f.insert(b"apple", 1);
    f.insert(b"applepie", 2);
    f.insert(b"banana", 3);
    f.insert(b"applepie", 7);
    let mut g: Fork<i32> = Fork::new();
    g.insert(b"apple", 1);
    g.insert(b"applepie", 7);
    g.insert(b"banana", 3);
    assert_eq!(f, g);
}

use navi::block::{Block, BlockKind, Page, ParentRef, RawBlock, join_text_runs, page_title_from_url};
use navi::document::{PageLayout, join_page_markdown, page_markdown};
use navi::tree::{Tree, build_markdown_from_tree, build_markdown_from_trees, render_tree};

fn block(id: &str, kind: BlockKind, text: &str, update_date: i64, has_children: bool) -> Block {
    Block {
        id: id.to_string(),
        page_id: "7b1b3b0c-14cb-45a6-a4b6-d2b48faecccb".to_string(),
        block_type: kind,
        text: text.to_string(),
        creation_date: 0,
        update_date,
        parent_block_id: None,
        has_children,
    }
}

#[test]
fn test_block_to_markdown() {
    let blocks = vec![
        block("1", BlockKind::Heading1, "Heading 1", 0, false),
        block("2", BlockKind::Heading2, "Heading 2", 0, false),
        block("3", BlockKind::BulletedListItem, "Bullet point", 0, false),
        block("4", BlockKind::Paragraph, "Normal text", 0, false),
    ];

    let expected_markdown = "# Heading 1\n## Heading 2\n- Bullet point\nNormal text";
    let result_markdown = blocks
        .iter()
        .map(|block| block.to_markdown())
        .collect::<Vec<String>>()
        .join("\n");

    assert_eq!(result_markdown, expected_markdown);
}

#[test]
fn test_build_markdown_from_trees() {
    let root = Block {
        id: "1164f233-166c-8100-a937-f753bc111dba".to_string(),
        page_id: "1164f233-166c-80f1-88d0-c68546042265".to_string(),
        block_type: BlockKind::Paragraph,
        text: "11:14: Plan For day:".to_string(),
        creation_date: 1728141240000,
        update_date: 1728240660000,
        parent_block_id: None,
        has_children: true,
    };
    let trees = vec![Tree::new(root)];
    assert_eq!(build_markdown_from_trees(trees), "11:14: Plan For day:\n");
}

#[test]
fn markdown_markers_for_every_kind() {
    let cases = [
        (BlockKind::Heading3, "### t"),
        (BlockKind::NumberedListItem, "1. t"),
        (BlockKind::ToDo, "- [ ] t"),
        (BlockKind::Toggle, "> t"),
        (BlockKind::Code, "t"),
        (BlockKind::Callout, "t"),
        (BlockKind::Bookmark, "t"),
        (BlockKind::Embed, "t"),
        (BlockKind::LinkPreview, "t"),
        (BlockKind::Other, "t"),
    ];
    for (kind, expected) in cases {
        assert_eq!(block("x", kind, "t", 0, false).to_markdown(), expected);
    }
}

#[test]
fn empty_text_makes_an_empty_block() {
    assert!(block("x", BlockKind::Paragraph, "", 0, false).is_empty());
    assert!(!block("x", BlockKind::Paragraph, " ", 0, false).is_empty());
}

#[test]
fn nested_tree_renders_one_tab_per_level() {
    let mut tree = Tree::new(block("a", BlockKind::Paragraph, "Watch General Magic", 0, true));
    tree.add_child(0, block("b", BlockKind::Paragraph, "It's a good documentary", 0, false));
    let c = tree.add_child(0, block("c", BlockKind::Paragraph, "it shows engineers", 0, true));
    tree.add_child(c, block("d", BlockKind::BulletedListItem, "such as phones", 0, false));
    let mut second = Tree::new(block("e", BlockKind::Paragraph, "Cook Dinner", 0, true));
    second.add_child(0, block("f", BlockKind::Paragraph, "Buy ingredients", 0, false));
    assert_eq!(
        build_markdown_from_trees(vec![tree, second]),
        "Watch General Magic\n\tIt's a good documentary\n\tit shows engineers\n\t\t- such as phones\nCook Dinner\n\tBuy ingredients\n"
    );
}

#[test]
fn depth_counter_returns_to_its_start() {
    let mut tree = Tree::new(block("a", BlockKind::Paragraph, "A", 0, true));
    let b = tree.add_child(0, block("b", BlockKind::Paragraph, "B", 0, true));
    tree.add_child(b, block("c", BlockKind::Paragraph, "C", 0, false));
    let mut depth: usize = 0;
    let mut out = String::new();
    render_tree(&tree, "  ", &mut depth, &mut out);
    assert_eq!(depth, 0);
    assert_eq!(out, "A\n  B\n    C\n");
    let mut depth: usize = 2;
    let mut out = String::from(">");
    render_tree(&tree, "-", &mut depth, &mut out);
    assert_eq!(depth, 2);
    assert_eq!(out, ">--A\n---B\n----C\n");
}

#[test]
fn single_tree_appends_to_existing_text() {
    let tree = Tree::new(block("a", BlockKind::Heading1, "Title", 0, false));
    let mut markdown = String::from("before\n");
    build_markdown_from_tree(&tree, &mut markdown);
    assert_eq!(markdown, "before\n# Title\n");
}

#[test]
fn no_trees_render_nothing() {
    assert_eq!(build_markdown_from_trees(Vec::new()), "");
}

#[test]
fn tree_accessors_follow_insertion() {
    let mut tree = Tree::new(block("a", BlockKind::Paragraph, "A", 0, true));
    let b = tree.add_child(0, block("b", BlockKind::Paragraph, "B", 0, false));
    let c = tree.add_child(0, block("c", BlockKind::Paragraph, "C", 0, false));
    assert_eq!((b, c), (1, 2));
    assert_eq!(tree.len(), 3);
    assert_eq!(tree.children(0), &vec![1, 2]);
    assert_eq!(tree.block(2).text, "C");
}

#[test]
fn text_runs_join_with_the_separator() {
    let runs = vec![Some("a".to_string()), None, Some("b c".to_string())];
    assert_eq!(join_text_runs(&runs, " "), "a  b c");
    assert_eq!(join_text_runs(&runs, "|"), "a||b c");
    assert_eq!(join_text_runs(&Vec::new(), " "), "");
    assert_eq!(join_text_runs(&vec![None], " "), "");
}

#[test]
fn raw_block_takes_defaults() {
    let raw = RawBlock {
        id: None,
        block_type: BlockKind::Other,
        text_runs: Vec::new(),
        created_time: None,
        last_edited_time: None,
        parent: Some(ParentRef::Page("p".to_string())),
        has_children: None,
    };
    let b = Block::from_notion_block(raw, "page".to_string());
    assert_eq!(b.id, "");
    assert_eq!(b.page_id, "page");
    assert_eq!(b.text, "");
    assert_eq!((b.creation_date, b.update_date), (0, 0));
    assert_eq!(b.parent_block_id, None);
    assert!(!b.has_children);
}

#[test]
fn raw_block_keeps_what_is_given() {
    let raw = RawBlock {
        id: Some("b1".to_string()),
        block_type: BlockKind::BulletedListItem,
        text_runs: vec![Some("first".to_string()), Some("second".to_string())],
        created_time: Some(5),
        last_edited_time: Some(9),
        parent: Some(ParentRef::Block("b0".to_string())),
        has_children: Some(true),
    };
    let b = Block::from_notion_block(raw, "page".to_string());
    assert_eq!(b.id, "b1");
    assert_eq!(b.block_type, BlockKind::BulletedListItem);
    assert_eq!(b.text, "first second");
    assert_eq!((b.creation_date, b.update_date), (5, 9));
    assert_eq!(b.parent_block_id, Some("b0".to_string()));
    assert!(b.has_children);
}

#[test]
fn title_comes_from_the_url() {
    assert_eq!(
        page_title_from_url("https://www.notion.so/August-19-2024-651d530e07a14f9c97b4084614c5049b"),
        "August 19 2024"
    );
    assert_eq!(page_title_from_url("https://www.notion.so/651d530e07a14f9c"), "");
    assert_eq!(page_title_from_url("Plain-abc"), "Plain");
    assert_eq!(page_title_from_url("https://x/a--b"), "a ");
    assert_eq!(page_title_from_url("https://x/a-b-c/"), "");
    assert_eq!(page_title_from_url(""), "");
    assert_eq!(page_title_from_url("https://x/Café-Notes-1f"), "Café Notes");
}

#[test]
fn page_from_listing_is_titled() {
    let p = Page::from_listing(
        "id".to_string(),
        "https://www.notion.so/Weekly-Plan-0a1b".to_string(),
        1,
        2,
        vec![block("x", BlockKind::Paragraph, "t", 2, false)],
    );
    assert_eq!(p.title, "Weekly Plan");
    assert_eq!(p.url, "https://www.notion.so/Weekly-Plan-0a1b");
    assert_eq!((p.creation_date, p.update_date), (1, 2));
    assert_eq!(p.child_blocks.len(), 1);
}

#[test]
fn page_sections_in_both_layouts() {
    let mut tree = Tree::new(block("a", BlockKind::Paragraph, "Task", 0, true));
    tree.add_child(0, block("b", BlockKind::Paragraph, "Sub", 0, false));
    let trees = vec![tree];
    assert_eq!(
        page_markdown("Plan", &trees, PageLayout::TitleHeader),
        "Page Title: Plan\nTask\n\tSub\n"
    );
    assert_eq!(page_markdown("Plan", &trees, PageLayout::TitleAsRoot), "Plan\n\tTask\n\t\tSub\n");
    assert_eq!(page_markdown("Empty", &Vec::new(), PageLayout::TitleHeader), "Page Title: Empty\n");
}

#[test]
fn sections_are_separated_by_a_blank_line() {
    let sections = vec!["one\n".to_string(), "two\n".to_string(), "three".to_string()];
    assert_eq!(join_page_markdown(&sections), "one\n\n\ntwo\n\n\nthree");
    assert_eq!(join_page_markdown(&Vec::new()), "");
    assert_eq!(join_page_markdown(&vec!["only".to_string()]), "only");
}

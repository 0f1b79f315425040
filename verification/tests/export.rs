//! Items, names, the index, the list of addresses and the pages.

use zhihu_collection_export::cli::ImageMode;
use zhihu_collection_export::export::{
    collection_files, collection_output_dir, item_file_stem, item_number_width, obsidian_alias,
    render_index, render_links_txt, sanitize_filename, CollectionExport, ExportedCollection,
};
use zhihu_collection_export::images::ImageExporter;
use zhihu_collection_export::item::{
    author_url, content_to_markdown, is_parsable_content, is_parsable_item, item_image_sources,
    item_title, item_url, next_image, render_content_block, render_item, value_to_string, ExportedItem,
};
use zhihu_collection_export::json::JsonValue;
use zhihu_collection_export::zhihu::{Author, CollectionItem, Content, Paging, Question};

fn text(value: &str) -> JsonValue {
    JsonValue::Text(value.to_string())
}

fn number(value: &str) -> JsonValue {
    JsonValue::Number(value.to_string())
}

fn object(members: Vec<(&str, JsonValue)>) -> JsonValue {
    JsonValue::Object(
        members.into_iter().map(|(name, value)| (name.to_string(), value)).collect(),
    )
}

fn remote() -> ImageExporter {
    ImageExporter::new(ImageMode::Remote)
}

fn nothing() -> Content {
    Content {
        id: None,
        kind: None,
        url: None,
        title: None,
        excerpt_title: None,
        content: None,
        excerpt: None,
        question: None,
        author: None,
        created_time: None,
        updated_time: None,
    }
}

fn plain_item(title: &str) -> CollectionItem {
    CollectionItem { content: Some(Content { title: Some(title.to_string()), ..nothing() }) }
}

fn exported(index: usize, title: &str, url: Option<&str>, stem: &str) -> ExportedItem {
    ExportedItem {
        index,
        title: title.to_string(),
        url: url.map(str::to_string),
        file_stem: stem.to_string(),
        markdown: format!("# {title}"),
    }
}

#[test]
fn renders_answer_url_from_ids() {
    let content = Content {
        id: Some(number("456")),
        kind: Some("answer".to_string()),
        question: Some(Question {
            id: Some(number("123")),
            title: Some("问题".to_string()),
            url: None,
        }),
        ..nothing()
    };
    assert_eq!(
        item_url(&content).unwrap(),
        "https://www.zhihu.com/question/123/answer/456"
    );
}

#[test]
fn chooses_collection_folder_from_title_or_id() {
    assert_eq!(
        collection_output_dir(Some("exports"), "997879559", Some("Linux/OS")),
        "exports/Linux_OS"
    );
    assert_eq!(
        collection_output_dir(Some("exports"), "997879559", None),
        "exports/997879559"
    );
}

#[test]
fn renders_obsidian_index_links() {
    let collection = ExportedCollection {
        title: "收藏夹".to_string(),
        collection_id: "123".to_string(),
        total: Some(1),
        items: vec![ExportedItem {
            index: 1,
            title: "A [B] | C".to_string(),
            url: Some("https://zhuanlan.zhihu.com/p/1".to_string()),
            file_stem: "01_A _B_ _ C".to_string(),
            markdown: "# A".to_string(),
        }],
    };
    let index = render_index(&collection);
    assert!(index.contains("[[01_A _B_ _ C|A ［B］ ｜ C]]"));
}

#[test]
fn renders_plain_links_txt() {
    let collection = ExportedCollection {
        title: "收藏夹".to_string(),
        collection_id: "123".to_string(),
        total: Some(3),
        items: vec![
            ExportedItem {
                index: 1,
                title: "A".to_string(),
                url: Some("https://zhuanlan.zhihu.com/p/1".to_string()),
                file_stem: "01_A".to_string(),
                markdown: "# A".to_string(),
            },
            ExportedItem {
                index: 2,
                title: "B".to_string(),
                url: None,
                file_stem: "02_B".to_string(),
                markdown: "# B".to_string(),
            },
            ExportedItem {
                index: 3,
                title: "C".to_string(),
                url: Some("https://www.zhihu.com/question/1/answer/2".to_string()),
                file_stem: "03_C".to_string(),
                markdown: "# C".to_string(),
            },
        ],
    };

    assert_eq!(
        render_links_txt(&collection),
        "https://zhuanlan.zhihu.com/p/1\nhttps://www.zhihu.com/question/1/answer/2\n"
    );
}

#[test]
fn renders_pin_structured_content() {
    let item = render_item(
        1,
        CollectionItem {
            content: Some(Content {
                id: Some(text("123")),
                kind: Some("pin".to_string()),
                url: Some("https://www.zhihu.com/pin/123".to_string()),
                excerpt_title: Some("想法标题".to_string()),
                content: Some(JsonValue::Array(vec![
                    object(vec![
                        ("type", text("text")),
                        ("content", text("<p>想法<strong>正文</strong></p>")),
                    ]),
                    object(vec![
                        ("type", text("link_card")),
                        ("url", text("https://www.zhihu.com/question/1")),
                    ]),
                ])),
                created_time: Some(10),
                updated_time: Some(20),
                ..nothing()
            }),
        },
        &remote(),
    );

    assert_eq!(item.title, "想法标题");
    assert!(item.markdown.contains("想法**正文**"));
    assert!(item.markdown.contains("https://www.zhihu.com/question/1"));
    assert!(!item.markdown.contains("接口未返回正文"));
}

#[test]
fn renders_the_whole_item() {
    let item = render_item(
        7,
        CollectionItem {
            content: Some(Content {
                id: Some(number("9")),
                kind: Some("article".to_string()),
                title: Some(" 标题 ".to_string()),
                content: Some(text("<p>正文</p>")),
                author: Some(Author {
                    name: Some(" 作者 ".to_string()),
                    headline: Some(" 简介 ".to_string()),
                    url_token: Some(" token ".to_string()),
                }),
                created_time: Some(-5),
                updated_time: Some(1700000000),
                ..nothing()
            }),
        },
        &remote(),
    );
    assert_eq!(item.index, 7);
    assert_eq!(item.url.as_deref(), Some("https://zhuanlan.zhihu.com/p/9"));
    assert_eq!(item.file_stem, "");
    assert_eq!(
        item.markdown,
        "# 标题\n\n- 序号: 7\n- 类型: article\n- 原文链接: https://zhuanlan.zhihu.com/p/9\n\
         - 作者: 作者\n- 作者主页: https://www.zhihu.com/people/token\n- 作者简介: 简介\n\
         - 创建时间: -5\n- 更新时间: 1700000000\n\n正文\n"
    );
}

#[test]
fn notes_why_an_item_has_no_text() {
    let gone = render_item(1, CollectionItem { content: None }, &remote());
    assert_eq!(gone.title, "[内容不可用]");
    assert_eq!(gone.url, None);
    assert_eq!(
        gone.markdown,
        "# [内容不可用]\n\n该收藏条目已删除、不可见，或接口没有返回内容。\n"
    );

    let video = render_item(
        2,
        CollectionItem {
            content: Some(Content {
                id: Some(text(" 8 ")),
                kind: Some("zvideo".to_string()),
                content: Some(text("<p>ignored</p>")),
                ..nothing()
            }),
        },
        &remote(),
    );
    assert_eq!(
        video.markdown,
        "# 无标题\n\n- 序号: 2\n- 类型: zvideo\n- 原文链接: https://www.zhihu.com/zvideo/8\n\n\
         视频条目通常不包含正文，已保留标题和链接。\n"
    );

    let empty = render_item(3, plain_item("T"), &remote());
    assert_eq!(empty.markdown, "# T\n\n- 序号: 3\n- 类型: unknown\n\n接口未返回正文。\n");

    let excerpt = render_item(
        4,
        CollectionItem {
            content: Some(Content {
                content: Some(text("  ")),
                excerpt: Some(" 摘要 ".to_string()),
                ..nothing()
            }),
        },
        &remote(),
    );
    assert!(excerpt.markdown.ends_with("- 类型: unknown\n\n摘要\n"));
}

#[test]
fn prefers_the_title_then_the_excerpt_then_the_question() {
    let question = || {
        Some(Question { id: None, title: Some("Q".to_string()), url: Some("/question/3".to_string()) })
    };
    let mut content = Content { question: question(), ..nothing() };
    assert_eq!(item_title(&content), "Q");
    content.excerpt_title = Some("E".to_string());
    assert_eq!(item_title(&content), "E");
    content.title = Some("  ".to_string());
    assert_eq!(item_title(&content), "无标题");
    content.title = Some(" T ".to_string());
    assert_eq!(item_title(&content), "T");
    assert_eq!(item_title(&nothing()), "无标题");
}

#[test]
fn falls_back_to_the_given_address() {
    let mut content = Content {
        kind: Some("answer".to_string()),
        id: Some(number("1")),
        question: Some(Question {
            id: None,
            title: None,
            url: Some("//www.zhihu.com/question/3".to_string()),
        }),
        ..nothing()
    };
    assert_eq!(item_url(&content).unwrap(), "https://www.zhihu.com/question/3");
    content.url = Some("/answer/1".to_string());
    assert_eq!(item_url(&content).unwrap(), "https://www.zhihu.com/answer/1");
    content.kind = Some("zvideo".to_string());
    assert_eq!(item_url(&content).unwrap(), "https://www.zhihu.com/zvideo/1");
    content.kind = Some("article".to_string());
    content.id = Some(JsonValue::Bool(true));
    assert_eq!(item_url(&content).unwrap(), "https://www.zhihu.com/answer/1");
    assert_eq!(item_url(&nothing()), None);
}

#[test]
fn reads_numbers_and_texts_as_text() {
    assert_eq!(value_to_string(&number("1.5")).unwrap(), "1.5");
    assert_eq!(value_to_string(&text(" a ")).unwrap(), "a");
    assert_eq!(value_to_string(&text("  ")), None);
    assert_eq!(value_to_string(&JsonValue::Null), None);
    assert_eq!(value_to_string(&JsonValue::Array(vec![])), None);
}

#[test]
fn an_author_without_a_token_has_no_page() {
    let author = |token: Option<&str>| Author {
        name: None,
        headline: None,
        url_token: token.map(str::to_string),
    };
    assert_eq!(author_url(&author(Some(" x "))).unwrap(), "https://www.zhihu.com/people/x");
    assert_eq!(author_url(&author(Some(" "))), None);
    assert_eq!(author_url(&author(None)), None);
}

#[test]
fn renders_blocks_as_text_or_links() {
    let images = remote();
    let block = |members| render_content_block(&object(members), &images);
    assert_eq!(
        block(vec![("own_text", text(" <b>a</b> "))]).unwrap(),
        "**a**"
    );
    // A member that is no text hides the other one.
    assert_eq!(
        block(vec![("content", JsonValue::Null), ("own_text", text("a"))]),
        None
    );
    assert_eq!(
        block(vec![("type", text("image")), ("original_url", text(" //p.example/a.png "))]).unwrap(),
        "![图片](https://p.example/a.png)"
    );
    assert_eq!(
        block(vec![
            ("type", text("image")),
            ("url", text("/a.png")),
            ("title", text(" T ")),
        ])
        .unwrap(),
        "![T](https://www.zhihu.com/a.png)"
    );
    assert_eq!(
        block(vec![("url", text("/q")), ("data_draft_title", text("T"))]).unwrap(),
        "[T](https://www.zhihu.com/q)"
    );
    assert_eq!(
        block(vec![("content", text("<p></p>")), ("url", text("https://a.example"))]).unwrap(),
        "https://a.example"
    );
    assert_eq!(block(vec![("title", text("T"))]), None);
    assert_eq!(render_content_block(&text("a"), &images), None);
}

#[test]
fn joins_blocks_with_empty_lines() {
    let images = remote();
    let blocks = JsonValue::Array(vec![
        object(vec![("content", text("a"))]),
        JsonValue::Null,
        object(vec![("content", text("b"))]),
    ]);
    assert_eq!(content_to_markdown(&blocks, &images).unwrap(), "a\n\nb");
    assert_eq!(content_to_markdown(&JsonValue::Array(vec![]), &images), None);
    assert_eq!(content_to_markdown(&text(" "), &images), None);
    assert_eq!(content_to_markdown(&number("1"), &images), None);
}

#[test]
fn ordinary_items_fit_into_the_parser() {
    assert!(is_parsable_item(&plain_item("A")));
    assert!(is_parsable_item(&CollectionItem { content: None }));
    let long = text(&"<p>字</p>".repeat(10_000));
    assert!(is_parsable_content(&long));
    let blocks = JsonValue::Array(vec![object(vec![("content", long)]), JsonValue::Null]);
    assert!(is_parsable_content(&blocks));
    assert!(is_parsable_item(&CollectionItem {
        content: Some(Content { content: Some(blocks), ..nothing() })
    }));
}

#[test]
fn announces_the_images_of_an_item() {
    let item = CollectionItem {
        content: Some(Content {
            content: Some(JsonValue::Array(vec![
                object(vec![("content", text("<img src=\"https://a.example/1.png\">"))]),
                object(vec![("type", text("image")), ("url", text("https://a.example/2.png"))]),
                object(vec![
                    ("type", text("image")),
                    ("content", text("caption")),
                    ("url", text("https://a.example/3.png")),
                ]),
                object(vec![("type", text("link")), ("url", text("https://a.example/4.png"))]),
            ])),
            ..nothing()
        }),
    };
    let mut images = ImageExporter::new(ImageMode::Local);
    assert_eq!(
        item_image_sources(&item, &images),
        vec!["https://a.example/1.png", "https://a.example/2.png"]
    );
    assert_eq!(next_image(&item, &images).unwrap(), "https://a.example/1.png");
    images.record("https://a.example/1.png", None);
    assert_eq!(next_image(&item, &images).unwrap(), "https://a.example/2.png");
    images.record("https://a.example/2.png", Some("images/2.png".to_string()));
    assert_eq!(next_image(&item, &images), None);
    assert_eq!(next_image(&item, &remote()), None);
    let markdown = render_item(1, item, &images).markdown;
    assert!(markdown.contains("![图片](https://a.example/1.png)"));
    assert!(markdown.contains("![图片](images/2.png)"));
}

#[test]
fn other_images_do_not_change_an_item() {
    let item = || CollectionItem {
        content: Some(Content {
            content: Some(text("<img src=\"https://a.example/1.png\">")),
            ..nothing()
        }),
    };
    let mut images = ImageExporter::new(ImageMode::Local);
    let before = render_item(1, item(), &images).markdown;
    images.record("https://a.example/other.png", Some("images/other.png".to_string()));
    assert_eq!(render_item(1, item(), &images).markdown, before);
}

#[test]
fn sanitizes_names() {
    assert_eq!(sanitize_filename("a/b\\c:d*e?f\"g<h>i|j[k]l#m^n\ro\np\tq"), "a_b_c_d_e_f_g_h_i_j_k_l_m_n_o_p_q");
    assert_eq!(sanitize_filename("  ..name..  "), "name");
    assert_eq!(sanitize_filename(" . "), "zhihu_collection");
    assert_eq!(sanitize_filename(""), "zhihu_collection");
    assert_eq!(sanitize_filename("../../etc"), "_.._etc");
    assert_eq!(sanitize_filename(&"字".repeat(100)), "字".repeat(80));
}

#[test]
fn a_blank_name_gives_way_to_the_number() {
    assert_eq!(sanitize_filename(". ."), " ");
    assert_eq!(collection_output_dir(None, "5", Some(". .")), "5");
    assert_eq!(collection_output_dir(None, "5", Some("T")), "T");
    assert_eq!(collection_output_dir(Some("out/"), "5", Some("T")), "out/T");
    assert_eq!(collection_output_dir(Some(""), "5", Some("T")), "T");
    assert_eq!(collection_output_dir(Some("out"), "5", Some("/etc")), "out/_etc");
}

#[test]
fn numbers_have_two_digits_at_least() {
    assert_eq!(item_number_width(0), 2);
    assert_eq!(item_number_width(9), 2);
    assert_eq!(item_number_width(99), 2);
    assert_eq!(item_number_width(100), 3);
    assert_eq!(item_number_width(12345), 5);
    assert_eq!(item_file_stem(7, "标题", 2), "07_标题");
    assert_eq!(item_file_stem(7, "a/b", 4), "0007_a_b");
    assert_eq!(item_file_stem(123, "", 2), "123_zhihu_collection");
}

#[test]
fn aliases_are_never_empty() {
    assert_eq!(obsidian_alias(" a|b[c]d "), "a｜b［c］d");
    assert_eq!(obsidian_alias("  "), "无标题");
}

#[test]
fn renders_the_whole_index() {
    let collection = ExportedCollection {
        title: "T".to_string(),
        collection_id: "123".to_string(),
        total: Some(9),
        items: vec![exported(1, "A", None, "01_A"), exported(2, " ", None, "02_zhihu_collection")],
    };
    assert_eq!(
        render_index(&collection),
        "# T\n\n- 收藏夹链接: https://www.zhihu.com/collection/123\n- 接口报告条目数: 9\n\
         - 导出条目数: 2\n\n## 目录\n\n1. [[01_A|A]]\n2. [[02_zhihu_collection|无标题]]\n"
    );
    let unknown = ExportedCollection { total: None, items: vec![], ..collection };
    assert_eq!(
        render_index(&unknown),
        "# T\n\n- 收藏夹链接: https://www.zhihu.com/collection/123\n- 导出条目数: 0\n\n## 目录\n\n"
    );
    assert_eq!(render_links_txt(&unknown), "");
}

#[test]
fn blank_addresses_are_not_listed() {
    let collection = ExportedCollection {
        title: "T".to_string(),
        collection_id: "1".to_string(),
        total: None,
        items: vec![
            exported(1, "A", Some("  "), "01_A"),
            exported(2, "B", Some("https://b.example"), "02_B"),
        ],
    };
    assert_eq!(render_links_txt(&collection), "https://b.example\n");
}

#[test]
fn pages_have_a_limit() {
    assert_eq!(CollectionExport::start(0).err().unwrap(), "--limit 必须在 1..=100 之间");
    assert_eq!(CollectionExport::start(101).err().unwrap(), "--limit 必须在 1..=100 之间");
    assert!(CollectionExport::start(1).is_ok());
    assert!(CollectionExport::start(100).is_ok());
}

fn paging(totals: Option<u64>, is_end: Option<bool>) -> Option<Paging> {
    Some(Paging { totals, is_end })
}

#[test]
fn follows_the_pages_to_the_reported_end() {
    let images = remote();
    let mut export = CollectionExport::start(2).unwrap();
    assert_eq!((export.offset(), export.limit()), (0, 2));
    let first = paging(Some(3), Some(false));
    assert_eq!(export.begin_page(&first).unwrap(), "收藏夹共 3 条，开始分页导出");
    export.add_item(plain_item("A"), &images);
    export.add_item(plain_item("B"), &images);
    assert_eq!(export.progress(), "已处理 2/3");
    assert!(!export.is_finished(false, &first));
    export.next_page();
    assert_eq!(export.offset(), 2);
    let second = paging(Some(99), None);
    assert_eq!(export.begin_page(&second), None);
    export.add_item(plain_item("C"), &images);
    assert!(export.is_finished(false, &second));
    assert_eq!(export.offset(), 2);
    let collection = export.finish("42", " 标题 ");
    assert_eq!(collection.title, "标题");
    assert_eq!(collection.collection_id, "42");
    assert_eq!(collection.total, Some(3));
    let stems: Vec<&str> = collection.items.iter().map(|item| item.file_stem.as_str()).collect();
    assert_eq!(stems, vec!["01_A", "02_B", "03_C"]);
}

#[test]
fn follows_the_pages_to_the_marked_end() {
    let images = remote();
    let mut export = CollectionExport::start(1).unwrap();
    let page = paging(None, None);
    assert_eq!(export.begin_page(&page).unwrap(), "未拿到总数，按分页结束标记导出");
    export.add_item(plain_item("A"), &images);
    assert_eq!(export.progress(), "已处理 1");
    assert!(!export.is_finished(false, &page));
    export.next_page();
    assert_eq!(export.begin_page(&None).unwrap(), "未拿到总数，按分页结束标记导出");
    assert!(!export.is_finished(false, &None));
    export.next_page();
    assert_eq!(export.offset(), 2);
    assert!(export.is_finished(false, &paging(None, Some(true))));
    assert!(export.is_finished(true, &page));
}

#[test]
fn pages_come_together_in_order() {
    let images = remote();
    let mut export = CollectionExport::start(3).unwrap();
    // The first number that is reported counts, and the page that completes it is the last.
    let pages = [
        (vec!["A", "B", "C"], paging(None, None), false),
        (vec!["D"], paging(Some(6), Some(false)), false),
        (vec!["E", "F"], paging(Some(99), None), true),
    ];
    for (place, (titles, page, last)) in pages.into_iter().enumerate() {
        assert_eq!(export.offset(), 3 * place as u32);
        export.begin_page(&page);
        for title in &titles {
            export.add_item(plain_item(title), &images);
        }
        assert_eq!(export.is_finished(titles.is_empty(), &page), last);
        if !last {
            export.next_page();
        }
    }
    let collection = export.finish("1", "T");
    assert_eq!(collection.total, Some(6));
    let items: Vec<(usize, &str)> =
        collection.items.iter().map(|item| (item.index, item.title.as_str())).collect();
    assert_eq!(items, vec![(1, "A"), (2, "B"), (3, "C"), (4, "D"), (5, "E"), (6, "F")]);
}

#[test]
fn each_file_has_its_own_name() {
    let images = remote();
    let mut export = CollectionExport::start(20).unwrap();
    for _ in 0..12 {
        export.add_item(plain_item("index"), &images);
    }
    let collection = export.finish("1", "T");
    let files = collection_files(&collection, true);
    assert_eq!(files.len(), 14);
    assert_eq!(files[0].name, "00_index.md");
    assert_eq!(files[0].content, render_index(&collection));
    assert_eq!(files[0].failure, "写入索引失败");
    assert_eq!(files[1].name, "links.txt");
    assert_eq!(files[1].content, render_links_txt(&collection));
    assert_eq!(files[1].failure, "写入链接列表失败");
    assert_eq!(files[2].name, "01_index.md");
    assert_eq!(files[2].content, collection.items[0].markdown);
    assert_eq!(files[2].failure, "写入条目失败");
    let mut names: Vec<&str> = files.iter().map(|file| file.name.as_str()).collect();
    names.sort();
    names.dedup();
    assert_eq!(names.len(), 14);
    let files = collection_files(&collection, false);
    assert_eq!(files.len(), 13);
    assert_eq!(files[1].name, "01_index.md");
}

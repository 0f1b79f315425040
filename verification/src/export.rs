//! How a collection becomes a folder of files: the pages, the names and the index.

use vstd::prelude::*;

use crate::images::{ImageExporter, Replacements};
use crate::item;
use crate::item::{Entry, ExportedItem};
use crate::paths;
use crate::text;
use crate::zhihu::{CollectionItem, Paging};

verus! {

/// A collection as it is written.
pub struct ExportedCollection {
    pub title: String,
    pub collection_id: String,
    /// How many items the API reports.
    pub total: Option<u64>,
    pub items: Vec<ExportedItem>,
}

/// What `ExportedCollection` stands for.
pub struct Volume {
    pub title: Seq<char>,
    pub collection_id: Seq<char>,
    pub total: Option<u64>,
    pub entries: Seq<Entry>,
}

impl View for ExportedCollection {
    type V = Volume;

    open spec fn view(&self) -> Volume {
        Volume {
            title: self.title@,
            collection_id: self.collection_id@,
            total: self.total,
            entries: item::entries(self.items@),
        }
    }
}

/// Whether the character may not stand in the name of a file or of a link to it.
pub open spec fn forbidden(c: char) -> bool {
    ||| c == '/'
    ||| c == '\\'
    ||| c == ':'
    ||| c == '*'
    ||| c == '?'
    ||| c == '"'
    ||| c == '<'
    ||| c == '>'
    ||| c == '|'
    ||| c == '['
    ||| c == ']'
    ||| c == '#'
    ||| c == '^'
    ||| c == '\r'
    ||| c == '\n'
    ||| c == '\t'
}

/// The character as it stands in a name.
pub open spec fn name_char(c: char) -> char {
    if forbidden(c) {
        '_'
    } else {
        c
    }
}

/// The text with the characters that may stand in a name.
pub open spec fn name_chars(input: Seq<char>) -> Seq<char> {
    Seq::new(input.len(), |i: int| name_char(input[i]))
}

/// The text without the dots around it.
pub open spec fn undotted(text: Seq<char>) -> Seq<char> {
    text::stripped_end(
        text::stripped_start(text, text::CharClass::Only('.')),
        text::CharClass::Only('.'),
    )
}

/// The name for a file or a folder.
pub open spec fn sanitized(input: Seq<char>) -> Seq<char> {
    let name = undotted(text::trimmed(name_chars(input)));
    if name.len() == 0 {
        "zhihu_collection"@
    } else {
        text::shortened(name, 80)
    }
}

/// Whether the character may not stand in a name.
fn is_forbidden(c: char) -> (yes: bool)
    ensures
        yes == forbidden(c),
{
    c == '/' || c == '\\' || c == ':' || c == '*' || c == '?' || c == '"' || c == '<' || c == '>'
        || c == '|' || c == '[' || c == ']' || c == '#' || c == '^' || c == '\r' || c == '\n' || c
        == '\t'
}

/// The name for a file or a folder: without characters that have a meaning of their own there,
/// without white space and dots around it, and not too long.
pub fn sanitize_filename(input: &str) -> (name: String)
    ensures
        name@ == sanitized(input@),
{
    let chars = text::to_chars(input);
    let mut output: String = String::new();
    let mut i: usize = 0;
    assert(output@ =~= name_chars(input@).take(0));
    while i < chars.len()
        invariant
            i <= chars@.len(),
            chars@ == input@,
            output@ == name_chars(input@).take(i as int),
        decreases chars@.len() - i,
    {
        output.push(if is_forbidden(chars[i]) {
            '_'
        } else {
            chars[i]
        });
        assert(output@ =~= name_chars(input@).take(i + 1));
        i = i + 1;
    }
    assert(output@ =~= name_chars(input@));
    let output = text::trim(output.as_str());
    let output = text::strip_start(output.as_str(), text::CharClass::Only('.'));
    let output = text::strip_end(output.as_str(), text::CharClass::Only('.'));
    if text::to_chars(output.as_str()).len() == 0 {
        "zhihu_collection".to_owned()
    } else {
        text::shorten(output.as_str(), 80)
    }
}

/// The folder of a collection: its title as a name, or else its number.
pub open spec fn folder_name(collection_id: Seq<char>, title: Option<Seq<char>>) -> Seq<char> {
    match title {
        Some(title) => if text::blank(sanitized(title)) {
            collection_id
        } else {
            sanitized(title)
        },
        None => collection_id,
    }
}

/// The folder of a collection below the output directory, or below the current one.
pub open spec fn output_dir(
    output_root: Option<Seq<char>>,
    collection_id: Seq<char>,
    title: Option<Seq<char>>,
) -> Seq<char> {
    match output_root {
        Some(root) => paths::joined_path(root, folder_name(collection_id, title)),
        None => folder_name(collection_id, title),
    }
}

/// The folder of a collection below the output directory, or below the current one.
pub fn collection_output_dir(
    output_root: Option<&str>,
    collection_id: &str,
    title: Option<&str>,
) -> (path: String)
    ensures
        path@ == output_dir(text::opt_str(output_root), collection_id@, text::opt_str(title)),
{
    let folder = match title {
        Some(title) => {
            let name = sanitize_filename(title);
            if text::is_blank(name.as_str()) {
                collection_id.to_owned()
            } else {
                name
            }
        },
        None => collection_id.to_owned(),
    };
    match output_root {
        Some(root) => paths::join_path(root, folder.as_str()),
        None => folder,
    }
}

/// How many digits the numbers of the items have: enough for the last one, and two at least.
pub open spec fn number_width(item_count: nat) -> nat {
    let count = if item_count == 0 {
        1
    } else {
        item_count
    };
    let digits = text::decimal(count).len();
    if digits < 2 {
        2
    } else {
        digits
    }
}

/// How many digits the numbers of the items have: enough for the last one, and two at least.
pub fn item_number_width(item_count: usize) -> (width: usize)
    ensures
        width == number_width(item_count as nat),
{
    let count: usize = if item_count == 0 {
        1
    } else {
        item_count
    };
    let digits: usize = text::to_chars(text::decimal_text(count as u64).as_str()).len();
    if digits < 2 {
        2
    } else {
        digits
    }
}

/// The name of the file of an item, without its ending.
pub open spec fn stem_of(index: nat, title: Seq<char>, width: nat) -> Seq<char> {
    text::padded_start(text::decimal(index), '0', width as int) + "_"@ + sanitized(title)
}

/// The name of the file of an item, without its ending: its number and its title.
pub fn item_file_stem(index: usize, title: &str, width: usize) -> (stem: String)
    ensures
        stem@ == stem_of(index as nat, title@, width as nat),
{
    let number = text::decimal_text(index as u64);
    text::concat3(
        text::pad_start(number.as_str(), '0', width).as_str(),
        "_",
        sanitize_filename(title).as_str(),
    )
}

/// The title as it stands in a link: what would end the link is written in full width.
pub open spec fn alias_of(title: Seq<char>) -> Seq<char> {
    let alias = text::replaced(
        text::replaced(text::replaced(text::trimmed(title), '|', "｜"@), '[', "［"@),
        ']',
        "］"@,
    );
    if alias.len() == 0 {
        "无标题"@
    } else {
        alias
    }
}

/// The title as it stands in a link.
pub fn obsidian_alias(title: &str) -> (alias: String)
    ensures
        alias@ == alias_of(title@),
{
    let alias = text::trim(title);
    let alias = text::replace(alias.as_str(), '|', "｜");
    let alias = text::replace(alias.as_str(), '[', "［");
    let alias = text::replace(alias.as_str(), ']', "］");
    if text::to_chars(alias.as_str()).len() == 0 {
        "无标题".to_owned()
    } else {
        alias
    }
}

/// The line of an item in the index.
pub open spec fn index_line(entry: Entry) -> Seq<char> {
    text::decimal(entry.index as nat) + ". [["@ + entry.stem + "|"@ + alias_of(entry.title)
        + "]]\n"@
}

/// The lines of the items in the index.
pub open spec fn index_lines(entries: Seq<Entry>) -> Seq<char>
    decreases entries.len(),
{
    if entries.len() == 0 {
        seq![]
    } else {
        index_lines(entries.drop_last()) + index_line(entries.last())
    }
}

/// What stands above the items in the index.
pub open spec fn index_head(volume: Volume) -> Seq<char> {
    "# "@ + volume.title + "\n\n"@ + item::labelled(
        "- 收藏夹链接: https://www.zhihu.com/collection/"@,
        Some(volume.collection_id),
    ) + item::labelled(
        "- 接口报告条目数: "@,
        match volume.total {
            Some(total) => Some(text::decimal(total as nat)),
            None => None,
        },
    ) + item::labelled("- 导出条目数: "@, Some(text::decimal(volume.entries.len()))) + "\n## 目录\n\n"@
}

/// The index of the collection.
pub open spec fn index_of(volume: Volume) -> Seq<char> {
    index_head(volume) + index_lines(volume.entries)
}

/// What stands above the items in the index.
fn render_index_head(collection: &ExportedCollection) -> (head: String)
    ensures
        head@ == index_head(collection@),
{
    let total = match collection.total {
        Some(total) => Some(text::decimal_text(total)),
        None => None,
    };
    let count = text::decimal_text(collection.items.len() as u64);
    let mut output = text::concat3("# ", collection.title.as_str(), "\n\n");
    item::push_labelled(
        &mut output,
        "- 收藏夹链接: https://www.zhihu.com/collection/",
        &Some(collection.collection_id.clone()),
    );
    item::push_labelled(&mut output, "- 接口报告条目数: ", &total);
    item::push_labelled(&mut output, "- 导出条目数: ", &Some(count));
    output.append("\n## 目录\n\n");
    output
}

/// The line of an item in the index.
fn render_index_line(item: &ExportedItem) -> (line: String)
    ensures
        line@ == index_line(item@),
{
    let mut line = text::concat5(
        text::decimal_text(item.index as u64).as_str(),
        ". [[",
        item.file_stem.as_str(),
        "|",
        obsidian_alias(item.title.as_str()).as_str(),
    );
    line.append("]]\n");
    line
}

/// The index of the collection: what is known of it, and a link to each item.
pub fn render_index(collection: &ExportedCollection) -> (index: String)
    ensures
        index@ == index_of(collection@),
{
    let ghost entries = item::entries(collection.items@);
    let mut output = render_index_head(collection);
    let ghost head = output@;
    let mut i: usize = 0;
    assert(head + index_lines(entries.take(0)) =~= head);
    while i < collection.items.len()
        invariant
            i <= collection.items@.len(),
            entries == item::entries(collection.items@),
            output@ == head + index_lines(entries.take(i as int)),
        decreases collection.items@.len() - i,
    {
        assert(entries.take(i + 1).drop_last() =~= entries.take(i as int));
        let line = render_index_line(&collection.items[i]);
        output.append(line.as_str());
        i = i + 1;
        assert(output@ =~= head + index_lines(entries.take(i as int)));
    }
    assert(entries.take(i as int) =~= entries);
    output
}

/// The addresses of the items that have one.
pub open spec fn shown_urls(entries: Seq<Entry>) -> Seq<Seq<char>>
    decreases entries.len(),
{
    if entries.len() == 0 {
        seq![]
    } else {
        let before = shown_urls(entries.drop_last());
        match entries.last().url {
            Some(url) => if text::blank(url) {
                before
            } else {
                before.push(url)
            },
            None => before,
        }
    }
}

/// The list of addresses.
pub open spec fn links_of(volume: Volume) -> Seq<char> {
    let links = text::joined(shown_urls(volume.entries), "\n"@);
    if links.len() == 0 {
        links
    } else {
        links + "\n"@
    }
}

/// The list of addresses, one on each line; items without one are left out.
pub fn render_links_txt(collection: &ExportedCollection) -> (links: String)
    ensures
        links@ == links_of(collection@),
{
    let ghost entries = item::entries(collection.items@);
    let mut urls: Vec<String> = Vec::new();
    let mut i: usize = 0;
    assert(text::texts(urls@) =~= shown_urls(entries.take(0)));
    while i < collection.items.len()
        invariant
            i <= collection.items@.len(),
            entries == item::entries(collection.items@),
            text::texts(urls@) == shown_urls(entries.take(i as int)),
        decreases collection.items@.len() - i,
    {
        assert(entries.take(i + 1).drop_last() =~= entries.take(i as int));
        let ghost before = text::texts(urls@);
        if let Some(url) = &collection.items[i].url {
            if !text::is_blank(url.as_str()) {
                urls.push(url.clone());
                assert(text::texts(urls@) =~= before.push(url@));
            }
        }
        i = i + 1;
    }
    assert(entries.take(i as int) =~= entries);
    let links = text::join(&urls, "\n");
    if text::to_chars(links.as_str()).len() == 0 {
        links
    } else {
        text::concat2(links.as_str(), "\n")
    }
}

/// A file to write into the folder.
pub struct OutputFile {
    pub name: String,
    pub content: String,
    /// What is said where it cannot be written.
    pub failure: &'static str,
}

/// What `OutputFile` stands for.
pub struct FilePlan {
    pub name: Seq<char>,
    pub content: Seq<char>,
    pub failure: Seq<char>,
}

impl View for OutputFile {
    type V = FilePlan;

    open spec fn view(&self) -> FilePlan {
        FilePlan { name: self.name@, content: self.content@, failure: self.failure@ }
    }
}

/// What a list of files stands for.
pub open spec fn plans(files: Seq<OutputFile>) -> Seq<FilePlan> {
    Seq::new(files.len(), |i: int| files[i]@)
}

/// The file of an item.
pub open spec fn item_file(entry: Entry) -> FilePlan {
    FilePlan { name: entry.stem + ".md"@, content: entry.markdown, failure: "写入条目失败"@ }
}

/// The files of the items.
pub open spec fn item_files(entries: Seq<Entry>) -> Seq<FilePlan> {
    Seq::new(entries.len(), |i: int| item_file(entries[i]))
}

/// The files that stand beside those of the items.
pub open spec fn common_files(volume: Volume, export_links: bool) -> Seq<FilePlan> {
    let index = FilePlan {
        name: "00_index.md"@,
        content: index_of(volume),
        failure: "写入索引失败"@,
    };
    let links = FilePlan {
        name: "links.txt"@,
        content: links_of(volume),
        failure: "写入链接列表失败"@,
    };
    if export_links {
        seq![index, links]
    } else {
        seq![index]
    }
}

/// The files of a collection: the index, the list of addresses on demand, and one for each item.
pub open spec fn files_of(volume: Volume, export_links: bool) -> Seq<FilePlan> {
    common_files(volume, export_links) + item_files(volume.entries)
}

/// The files of a collection: the index, the list of addresses on demand, and one for each item.
pub fn collection_files(collection: &ExportedCollection, export_links: bool) -> (files: Vec<
    OutputFile,
>)
    ensures
        plans(files@) == files_of(collection@, export_links),
{
    let ghost entries = item::entries(collection.items@);
    let ghost common = common_files(collection@, export_links);
    let mut files: Vec<OutputFile> = Vec::new();
    files.push(
        OutputFile {
            name: "00_index.md".to_owned(),
            content: render_index(collection),
            failure: "写入索引失败",
        },
    );
    if export_links {
        files.push(
            OutputFile {
                name: "links.txt".to_owned(),
                content: render_links_txt(collection),
                failure: "写入链接列表失败",
            },
        );
    }
    assert(plans(files@) =~= common);
    let mut i: usize = 0;
    assert(common + item_files(entries).take(0) =~= common);
    while i < collection.items.len()
        invariant
            i <= collection.items@.len(),
            entries == item::entries(collection.items@),
            plans(files@) == common + item_files(entries).take(i as int),
        decreases collection.items@.len() - i,
    {
        let ghost before = plans(files@);
        let item = &collection.items[i];
        files.push(
            OutputFile {
                name: text::concat2(item.file_stem.as_str(), ".md"),
                content: item.markdown.clone(),
                failure: "写入条目失败",
            },
        );
        assert(plans(files@) =~= before.push(item_files(entries)[i as int]));
        i = i + 1;
        assert(plans(files@) =~= common + item_files(entries).take(i as int));
    }
    assert(item_files(entries).take(i as int) =~= item_files(entries));
    files
}

/// How far an export has come.
pub struct CollectionExport {
    limit: u32,
    offset: u32,
    total: Option<u64>,
    items: Vec<ExportedItem>,
}

/// What `CollectionExport` stands for.
pub struct Progress {
    /// The size of a page.
    pub limit: u32,
    /// Where the next page begins.
    pub offset: u32,
    /// How many items there are, once that is known.
    pub total: Option<u64>,
    /// The items so far.
    pub entries: Seq<Entry>,
}

impl View for CollectionExport {
    type V = Progress;

    closed spec fn view(&self) -> Progress {
        Progress {
            limit: self.limit,
            offset: self.offset,
            total: self.total,
            entries: item::entries(self.items@),
        }
    }
}

/// Whether the items are numbered from one.
pub open spec fn numbered(entries: Seq<Entry>) -> bool {
    forall|i: int| 0 <= i < entries.len() ==> (#[trigger] entries[i]).index == i + 1
}

/// Whether a page may have this size.
pub open spec fn valid_limit(limit: u32) -> bool {
    1 <= limit <= 100
}

/// How many items the page reports in all.
pub open spec fn reported(paging: Option<Paging>) -> Option<u64> {
    match paging {
        Some(paging) => paging.totals,
        None => None,
    }
}

/// Whether the page says that it is the last.
pub open spec fn marked_last(paging: Option<Paging>) -> bool {
    match paging {
        Some(paging) => paging.is_end == Some(true),
        None => false,
    }
}

/// Whether nothing comes after the page: it was empty, or says so, or all items are there.
pub open spec fn finished(progress: Progress, empty: bool, paging: Option<Paging>) -> bool {
    ||| empty
    ||| marked_last(paging)
    ||| progress.total matches Some(total) && progress.entries.len() >= total
}

/// An export that has not begun, with pages of that size.
pub open spec fn fresh(limit: u32) -> Progress {
    Progress { limit, offset: 0, total: None, entries: Seq::empty() }
}

/// The progress before the items of a page: the number of items is taken from the first page that
/// reports it.
pub open spec fn begun(progress: Progress, paging: Option<Paging>) -> Progress {
    Progress {
        total: if progress.total is Some {
            progress.total
        } else {
            reported(paging)
        },
        ..progress
    }
}

/// The progress after a page that is not the last.
pub open spec fn turned(progress: Progress) -> Progress {
    Progress { offset: (progress.offset + progress.limit) as u32, ..progress }
}

/// What is said of the number of items.
pub open spec fn total_words(total: Option<u64>) -> Seq<char> {
    match total {
        Some(total) => "收藏夹共 "@ + text::decimal(total as nat) + " 条，开始分页导出"@,
        None => "未拿到总数，按分页结束标记导出"@,
    }
}

/// What is said of the progress.
pub open spec fn progress_words(progress: Progress) -> Seq<char> {
    let count = text::decimal(progress.entries.len());
    match progress.total {
        Some(total) => "已处理 "@ + count + "/"@ + text::decimal(total as nat),
        None => "已处理 "@ + count,
    }
}

/// What is said before the items of a page: how many there are, until that is known.
pub open spec fn opening_words(progress: Progress, paging: Option<Paging>) -> Option<Seq<char>> {
    if progress.total is Some {
        None
    } else {
        Some(total_words(begun(progress, paging).total))
    }
}

/// The collection as it is written.
pub open spec fn bound(progress: Progress, collection_id: Seq<char>, title: Seq<char>) -> Volume {
    Volume {
        title: text::trimmed(title),
        collection_id,
        total: progress.total,
        entries: named(progress.entries),
    }
}

/// The items with the names of their files.
pub open spec fn named(entries: Seq<Entry>) -> Seq<Entry> {
    Seq::new(
        entries.len(),
        |i: int|
            Entry {
                stem: stem_of(
                    entries[i].index as nat,
                    entries[i].title,
                    number_width(entries.len()),
                ),
                ..entries[i]
            },
    )
}

impl CollectionExport {
    /// Whether the page has a valid size and the items are numbered from one.
    pub open spec fn wf(&self) -> bool {
        valid_limit(self@.limit) && numbered(self@.entries)
    }

    /// An export that has not begun, with pages of that size.
    pub fn start(limit: u32) -> (export: Result<CollectionExport, String>)
        ensures
            match export {
                Ok(export) => valid_limit(limit) && export.wf() && export@ == fresh(limit),
                Err(words) => !valid_limit(limit) && words@ == "--limit 必须在 1..=100 之间"@,
            },
    {
        if limit == 0 || limit > 100 {
            return Err("--limit 必须在 1..=100 之间".to_owned());
        }
        let export = CollectionExport { limit, offset: 0, total: None, items: Vec::new() };
        assert(export@.entries =~= Seq::empty());
        Ok(export)
    }

    /// Where the next page begins.
    pub fn offset(&self) -> (offset: u32)
        ensures
            offset == self@.offset,
    {
        self.offset
    }

    /// The size of a page.
    pub fn limit(&self) -> (limit: u32)
        ensures
            limit == self@.limit,
    {
        self.limit
    }

    /// Takes note of a page before its items, and gives what there is to say: the number of items is
    /// taken from the first page that reports it.
    pub fn begin_page(&mut self, paging: &Option<Paging>) -> (words: Option<String>)
        ensures
            final(self)@ == begun(old(self)@, *paging),
            text::opt_text(words) == opening_words(old(self)@, *paging),
    {
        if self.total.is_some() {
            return None;
        }
        self.total = match paging {
            Some(paging) => paging.totals,
            None => None,
        };
        match self.total {
            Some(total) => Some(
                text::concat3(
                    "收藏夹共 ",
                    text::decimal_text(total).as_str(),
                    " 条，开始分页导出",
                ),
            ),
            None => Some("未拿到总数，按分页结束标记导出".to_owned()),
        }
    }

    /// Adds an item under the next number. Its images stand as `images` has them.
    pub fn add_item(&mut self, item: CollectionItem, images: &ImageExporter)
        requires
            old(self).wf(),
            old(self)@.entries.len() < usize::MAX,
            item::parsable_item(item),
        ensures
            final(self).wf(),
            final(self)@ == with_item(old(self)@, item, images@),
    {
        let index: usize = self.items.len() + 1;
        self.items.push(item::render_item(index, item, images));
        assert(self@.entries =~= old(self)@.entries.push(item::entry_of(index, item, images@)));
    }

    /// What there is to say after the items of a page.
    pub fn progress(&self) -> (words: String)
        ensures
            words@ == progress_words(self@),
    {
        let count = text::decimal_text(self.items.len() as u64);
        match self.total {
            Some(total) => text::concat4(
                "已处理 ",
                count.as_str(),
                "/",
                text::decimal_text(total).as_str(),
            ),
            None => text::concat2("已处理 ", count.as_str()),
        }
    }

    /// Whether nothing comes after the page, where `empty` says whether it had no items.
    pub fn is_finished(&self, empty: bool, paging: &Option<Paging>) -> (yes: bool)
        ensures
            yes == finished(self@, empty, *paging),
    {
        let is_end = match paging {
            Some(paging) => match paging.is_end {
                Some(is_end) => is_end,
                None => false,
            },
            None => false,
        };
        let complete = match self.total {
            Some(total) => self.items.len() as u64 >= total,
            None => false,
        };
        empty || is_end || complete
    }

    /// Goes on to the next page.
    pub fn next_page(&mut self)
        requires
            old(self).wf(),
            old(self)@.offset + old(self)@.limit <= u32::MAX,
        ensures
            final(self).wf(),
            final(self)@ == turned(old(self)@),
    {
        self.offset = self.offset + self.limit;
    }

    /// The collection as it is written, where each item has the name of its file.
    pub fn finish(self, collection_id: &str, title: &str) -> (collection: ExportedCollection)
        ensures
            collection@ == bound(self@, collection_id@, title@),
    {
        let ghost entries = self@.entries;
        let width = item_number_width(self.items.len());
        let total = self.total;
        let mut items: Vec<ExportedItem> = Vec::new();
        let all = self.items;
        assert(item::entries(items@) =~= named(entries).take(0));
        for item in iter: all
            invariant
                iter.seq() == all@,
                entries == item::entries(all@),
                width == number_width(entries.len()),
                item::entries(items@) == named(entries).take(iter.index() as int),
        {
            let ghost i = iter.index() as int;
            let ghost before = item::entries(items@);
            assert(entries[i] == item@);
            let file_stem = item_file_stem(item.index, item.title.as_str(), width);
            items.push(
                ExportedItem {
                    index: item.index,
                    title: item.title,
                    url: item.url,
                    file_stem,
                    markdown: item.markdown,
                },
            );
            assert(item::entries(items@) =~= before.push(named(entries)[i]));
            assert(before.push(named(entries)[i]) =~= named(entries).take(i + 1));
        }
        assert(named(entries).take(all@.len() as int) =~= named(entries));
        ExportedCollection {
            title: text::trim(title),
            collection_id: collection_id.to_owned(),
            total,
            items,
        }
    }
}

/// The progress with one more item, under the next number.
pub open spec fn with_item(
    progress: Progress,
    item: CollectionItem,
    images: Replacements,
) -> Progress {
    Progress {
        entries: progress.entries.push(
            item::entry_of((progress.entries.len() + 1) as usize, item, images),
        ),
        ..progress
    }
}

/// A name without the characters that have a meaning of their own in names and links.
pub open spec fn plain_name(name: Seq<char>) -> bool {
    forall|i: int| 0 <= i < name.len() ==> !forbidden(#[trigger] name[i])
}

/// A sanitized name is never empty, has 80 characters at most, holds none of the forbidden
/// characters and does not begin with a dot.
pub proof fn sanitized_names_are_plain(input: Seq<char>)
    ensures
        0 < sanitized(input).len() <= 80,
        plain_name(sanitized(input)),
        sanitized(input)[0] != '.',
{
    let chars = name_chars(input);
    let dot = text::CharClass::Only('.');
    let inner = text::trimmed(chars);
    let start = text::stripped_start(inner, dot);
    let name = undotted(inner);
    text::lemma_trimmed(chars);
    text::lemma_stripped_start(inner, dot);
    text::lemma_stripped_end(start, dot);
    reveal_strlit("zhihu_collection");
    if name.len() > 0 {
        assert(name[0] == start[0]);
        assert forall|i: int| 0 <= i < sanitized(input).len() implies !forbidden(
            #[trigger] sanitized(input)[i],
        ) by {
            let c = sanitized(input)[i];
            assert(c == name[i]);
            assert(c == start[i]);
            assert(c == inner[inner.len() - start.len() + i]);
            assert(inner.contains(c));
            assert(chars.contains(c));
            let k = choose|k: int| 0 <= k < chars.len() && chars[k] == c;
            assert(chars[k] == name_char(input[k]));
        }
    }
}

/// A collection is written into one folder directly below the output directory, whether the folder
/// is named by the title or, where the title makes no name, by the number of the collection: the
/// name is no way out of it.
pub proof fn the_folder_stays_below_the_root(
    root: Seq<char>,
    collection_id: Seq<char>,
    title: Option<Seq<char>>,
)
    requires
        !(title matches Some(title) && !text::blank(sanitized(title))) ==> collection_id.len() > 0
            && text::all_digits(collection_id),
    ensures
        ({
            let folder = folder_name(collection_id, title);
            let path = output_dir(Some(root), collection_id, title);
            &&& folder.len() > 0
            &&& !folder.contains('/')
            &&& !folder.contains('\\')
            &&& folder != "."@
            &&& folder != ".."@
            &&& path == root + folder || path == root + "/"@ + folder
            &&& output_dir(None, collection_id, title) == folder
        }),
{
    reveal_strlit(".");
    reveal_strlit("..");
    assert("."@[0] == '.');
    assert(".."@[0] == '.');
    let folder = folder_name(collection_id, title);
    if let Some(title) = title {
        sanitized_names_are_plain(title);
    }
    assert(folder[0] != '.');
    assert forall|i: int| 0 <= i < folder.len() implies #[trigger] folder[i] != '/' && folder[i]
        != '\\' by {
        assert(folder == collection_id || !forbidden(folder[i]));
    }
}

/// The title in a link is never empty and holds nothing that ends the link or its title.
pub proof fn aliases_do_not_end_links(title: Seq<char>)
    ensures
        alias_of(title).len() > 0,
        !alias_of(title).contains('|'),
        !alias_of(title).contains('['),
        !alias_of(title).contains(']'),
{
    reveal_strlit("｜");
    reveal_strlit("［");
    reveal_strlit("］");
    reveal_strlit("无标题");
    let first = text::replaced(text::trimmed(title), '|', "｜"@);
    let second = text::replaced(first, '[', "［"@);
    let third = text::replaced(second, ']', "］"@);
    text::lemma_replaced_lacks(text::trimmed(title), '|', "｜"@, '|');
    text::lemma_replaced_lacks(first, '[', "［"@, '|');
    text::lemma_replaced_lacks(first, '[', "［"@, '[');
    text::lemma_replaced_lacks(second, ']', "］"@, '|');
    text::lemma_replaced_lacks(second, ']', "］"@, '[');
    text::lemma_replaced_lacks(second, ']', "］"@, ']');
}

/// The number in the name of a file has as many digits as the numbers of the collection have, and
/// stands for the number of the item.
proof fn lemma_number(index: nat, count: nat)
    requires
        index <= count,
    ensures
        ({
            let number = text::padded_start(
                text::decimal(index),
                '0',
                number_width(count) as int,
            );
            &&& number.len() == number_width(count)
            &&& text::all_digits(number)
            &&& text::digits_value(number) == index
        }),
{
    text::lemma_decimal_value(index);
    text::lemma_padded_value(text::decimal(index), number_width(count) as int);
    if count == 0 {
        text::lemma_decimal_len(index, 1);
    } else {
        text::lemma_decimal_len(index, count);
    }
}

/// Different numbers give different names, and none gives the name of the index.
proof fn lemma_stems(
    left: nat,
    left_title: Seq<char>,
    right: nat,
    right_title: Seq<char>,
    count: nat,
)
    requires
        1 <= left <= count,
        1 <= right <= count,
    ensures
        left != right ==> stem_of(left, left_title, number_width(count)) != stem_of(
            right,
            right_title,
            number_width(count),
        ),
        stem_of(left, left_title, number_width(count)) != "00_index"@,
{
    let width = number_width(count);
    let one = text::padded_start(text::decimal(left), '0', width as int);
    let other = text::padded_start(text::decimal(right), '0', width as int);
    lemma_number(left, count);
    lemma_number(right, count);
    let stem = stem_of(left, left_title, width);
    assert(stem.take(width as int) =~= one);
    assert(stem_of(right, right_title, width).take(width as int) =~= other);
    reveal_strlit("00_index");
    if stem == "00_index"@ {
        if width == 2 {
            assert(one =~= text::padded_start(seq![], '0', 2));
            text::lemma_padded_value(seq![], 2);
        } else {
            assert(one[2] == "00_index"@[2]);
            assert("00_index"@[2] == '_');
        }
    }
}

/// The items of a finished export have different file names.
pub proof fn each_item_has_its_own_file(entries: Seq<Entry>, i: int, j: int)
    requires
        numbered(entries),
        0 <= i < j < entries.len(),
    ensures
        item_files(named(entries))[i].name != item_files(named(entries))[j].name,
{
    let count = entries.len();
    let left = named(entries)[i];
    let right = named(entries)[j];
    assert(entries[i].index == i + 1);
    assert(entries[j].index == j + 1);
    lemma_stems(
        entries[i].index as nat,
        entries[i].title,
        entries[j].index as nat,
        entries[j].title,
        count,
    );
    lemma_same_ending(left.stem, right.stem, ".md"@);
}

/// Texts with the same ending are the same only where they are the same without it.
proof fn lemma_same_ending(left: Seq<char>, right: Seq<char>, ending: Seq<char>)
    ensures
        left + ending == right + ending ==> left == right,
{
    if left + ending == right + ending {
        assert((left + ending).len() == left.len() + ending.len());
        assert((right + ending).len() == right.len() + ending.len());
        assert((left + ending).take(left.len() as int) =~= left);
        assert((right + ending).take(left.len() as int) =~= right);
    }
}

/// No item overwrites the index or the list of addresses.
pub proof fn items_leave_the_common_files_alone(
    volume: Volume,
    entries: Seq<Entry>,
    export_links: bool,
    i: int,
    k: int,
)
    requires
        numbered(entries),
        0 <= i < entries.len(),
        0 <= k < common_files(volume, export_links).len(),
    ensures
        item_files(named(entries))[i].name != common_files(volume, export_links)[k].name,
{
    let count = entries.len();
    let entry = named(entries)[i];
    assert(entries[i].index == i + 1);
    lemma_stems(
        entries[i].index as nat,
        entries[i].title,
        entries[i].index as nat,
        entries[i].title,
        count,
    );
    reveal_strlit("00_index");
    reveal_strlit(".md");
    reveal_strlit("00_index.md");
    reveal_strlit("links.txt");
    assert("00_index.md"@ =~= "00_index"@ + ".md"@);
    lemma_same_ending(entry.stem, "00_index"@, ".md"@);
    assert((entry.stem + ".md"@).last() == 'd');
    assert("links.txt"@.last() == 't');
}

/// Every address on the list stands on a line of its own: the lines of the list are the addresses
/// of the items. (An address that holds a line feed or ends in a carriage return is none.)
pub proof fn each_link_has_its_own_line(volume: Volume)
    requires
        forall|i: int|
            0 <= i < volume.entries.len() && (#[trigger] volume.entries[i]).url is Some
                ==> text::one_line(volume.entries[i].url->0),
    ensures
        text::lines_of(links_of(volume)) == shown_urls(volume.entries),
{
    let urls = shown_urls(volume.entries);
    lemma_shown_urls(volume.entries);
    if urls.len() > 0 {
        assert(urls[0].len() > 0 && urls[urls.len() - 1].len() > 0);
        text::lemma_joined_ends(urls, "\n"@);
        text::lemma_lines_of_joined(urls, seq![]);
        assert(text::joined(urls, "\n"@) + "\n"@ + seq![] =~= links_of(volume));
        assert(urls + text::lines_of(seq![]) =~= urls);
    } else {
        assert(links_of(volume) =~= seq![]);
        assert(text::lines_of(links_of(volume)) =~= urls);
    }
}

/// The addresses that are shown are addresses of items and not empty.
proof fn lemma_shown_urls(entries: Seq<Entry>)
    ensures
        forall|k: int|
            0 <= k < shown_urls(entries).len() ==> (#[trigger] shown_urls(entries)[k]).len() > 0
                && exists|i: int|
                0 <= i < entries.len() && (#[trigger] entries[i]).url == Some(
                    shown_urls(entries)[k],
                ),
    decreases entries.len(),
{
    if entries.len() > 0 {
        let init = entries.drop_last();
        let before = shown_urls(init);
        let after = shown_urls(entries);
        lemma_shown_urls(init);
        assert forall|k: int| 0 <= k < after.len() implies (#[trigger] after[k]).len() > 0
            && exists|i: int| 0 <= i < entries.len() && (#[trigger] entries[i]).url == Some(after[k]) by {
            if k < before.len() {
                assert(after[k] == before[k]);
                let i = choose|i: int|
                    0 <= i < init.len() && (#[trigger] init[i]).url == Some(before[k]);
                assert(entries[i] == init[i]);
            } else {
                text::lemma_trimmed(after[k]);
                assert(entries[entries.len() - 1].url == Some(after[k]));
            }
        }
    }
}

/// The index holds the line of every item.
pub proof fn the_index_links_every_item(volume: Volume, i: int)
    requires
        0 <= i < volume.entries.len(),
    ensures
        text::occurs(index_line(volume.entries[i]), index_of(volume)),
{
    lemma_index_lines(volume.entries, i);
    assert(index_of(volume) =~= index_head(volume) + index_lines(volume.entries) + seq![]);
    text::lemma_occurs_in_part(
        index_line(volume.entries[i]),
        index_head(volume),
        index_lines(volume.entries),
        seq![],
    );
}

/// The lines of the items hold the line of every item.
proof fn lemma_index_lines(entries: Seq<Entry>, i: int)
    requires
        0 <= i < entries.len(),
    ensures
        text::occurs(index_line(entries[i]), index_lines(entries)),
    decreases entries.len(),
{
    let init = entries.drop_last();
    let last = index_line(entries.last());
    if i == entries.len() - 1 {
        assert(index_lines(entries) =~= index_lines(init) + last + seq![]);
        text::lemma_occurs(index_lines(init), last, seq![]);
    } else {
        lemma_index_lines(init, i);
        assert(init[i] == entries[i]);
        assert(index_lines(entries) =~= seq![] + index_lines(init) + last);
        text::lemma_occurs_in_part(index_line(entries[i]), seq![], index_lines(init), last);
    }
}

/// A page as it was taken: its items, each with what was recorded of the images when it was
/// rendered.
pub struct TakenPage {
    pub paging: Option<Paging>,
    pub items: Seq<(CollectionItem, Replacements)>,
}

/// The progress with more items.
pub open spec fn with_items(
    progress: Progress,
    items: Seq<(CollectionItem, Replacements)>,
) -> Progress
    decreases items.len(),
{
    if items.len() == 0 {
        progress
    } else {
        with_item(with_items(progress, items.drop_last()), items.last().0, items.last().1)
    }
}

/// The progress after a page was taken.
pub open spec fn with_page(progress: Progress, page: TakenPage) -> Progress {
    with_items(begun(progress, page.paging), page.items)
}

/// The progress before the page that comes after these pages.
pub open spec fn before_next(limit: u32, pages: Seq<TakenPage>) -> Progress
    decreases pages.len(), 1int,
{
    if pages.len() == 0 {
        fresh(limit)
    } else {
        turned(after_pages(limit, pages))
    }
}

/// The progress after these pages were taken, one after the other.
pub open spec fn after_pages(limit: u32, pages: Seq<TakenPage>) -> Progress
    decreases pages.len(), 0int,
{
    if pages.len() == 0 {
        fresh(limit)
    } else {
        with_page(before_next(limit, pages.drop_last()), pages.last())
    }
}

/// The items of the pages, in order.
pub open spec fn all_items(pages: Seq<TakenPage>) -> Seq<(CollectionItem, Replacements)>
    decreases pages.len(),
{
    if pages.len() == 0 {
        seq![]
    } else {
        all_items(pages.drop_last()) + pages.last().items
    }
}

/// The number of items that the first of the pages that reports one reports.
pub open spec fn first_reported(pages: Seq<TakenPage>) -> Option<u64>
    decreases pages.len(),
{
    if pages.len() == 0 {
        None
    } else if first_reported(pages.drop_last()) is Some {
        first_reported(pages.drop_last())
    } else {
        reported(pages.last().paging)
    }
}

/// The items numbered from one, each as it was rendered.
pub open spec fn numbered_entries(items: Seq<(CollectionItem, Replacements)>) -> Seq<Entry> {
    Seq::new(items.len(), |i: int| item::entry_of((i + 1) as usize, items[i].0, items[i].1))
}

/// Whether nothing comes after these pages: the last one has no items, or says that it is the last,
/// or completes the number of items that was reported first.
pub open spec fn ends_paging(pages: Seq<TakenPage>) -> bool {
    ||| pages.last().items.len() == 0
    ||| marked_last(pages.last().paging)
    ||| first_reported(pages) matches Some(total) && all_items(pages).len() >= total
}

/// Items are added in order, under the numbers that come next.
proof fn lemma_with_items(
    progress: Progress,
    before: Seq<(CollectionItem, Replacements)>,
    items: Seq<(CollectionItem, Replacements)>,
)
    requires
        progress.entries == numbered_entries(before),
    ensures
        with_items(progress, items) == (Progress {
            entries: numbered_entries(before + items),
            ..progress
        }),
    decreases items.len(),
{
    if items.len() == 0 {
        assert(before + items =~= before);
    } else {
        let init = items.drop_last();
        lemma_with_items(progress, before, init);
        assert(before + items =~= (before + init).push(items.last()));
        assert(numbered_entries((before + init).push(items.last())) =~= numbered_entries(
            before + init,
        ).push(
            item::entry_of(
                ((before + init).len() + 1) as usize,
                items.last().0,
                items.last().1,
            ),
        ));
    }
}

/// The pages put together: after them there is one entry for each item, in order and numbered from
/// one; the number of items is the first that was reported; each page but the first began one page
/// after the one before it; and what `finished` says of the last page is that nothing comes after
/// it. (The numbers of the items, and the places of the pages, are numbers that the machine has.)
pub proof fn pages_are_put_together(limit: u32, pages: Seq<TakenPage>)
    requires
        pages.len() > 0,
        all_items(pages).len() <= usize::MAX,
        limit * (pages.len() - 1) <= u32::MAX,
    ensures
        after_pages(limit, pages) == (Progress {
            limit,
            offset: (limit * (pages.len() - 1)) as u32,
            total: first_reported(pages),
            entries: numbered_entries(all_items(pages)),
        }),
        numbered(after_pages(limit, pages).entries),
        finished(
            after_pages(limit, pages),
            pages.last().items.len() == 0,
            pages.last().paging,
        ) == ends_paging(pages),
    decreases pages.len(),
{
    let init = pages.drop_last();
    let last = pages.last();
    let before = before_next(limit, init);
    if init.len() > 0 {
        assert(limit * (pages.len() - 1) == limit * (init.len() - 1) + limit) by (nonlinear_arith)
            requires
                pages.len() == init.len() + 1,
        ;
        assert(0 <= limit * (init.len() - 1)) by (nonlinear_arith)
            requires
                init.len() > 0,
                0 <= limit,
        ;
        assert(all_items(pages).len() == all_items(init).len() + last.items.len());
        pages_are_put_together(limit, init);
        assert(before == turned(after_pages(limit, init)));
    } else {
        assert(before == fresh(limit));
        assert(all_items(init) =~= seq![]);
        assert(before.entries =~= numbered_entries(all_items(init)));
        assert(limit * (pages.len() - 1) == 0) by (nonlinear_arith)
            requires
                pages.len() == 1,
        ;
    }
    assert(before.offset == limit * (pages.len() - 1));
    assert(before.total == first_reported(init));
    assert(before.entries == numbered_entries(all_items(init)));
    assert(after_pages(limit, pages) == with_page(before, last));
    lemma_with_items(begun(before, last.paging), all_items(init), last.items);
    let entries = numbered_entries(all_items(pages));
    assert forall|i: int| 0 <= i < entries.len() implies (#[trigger] entries[i]).index == i
        + 1 by {}
}

/// Whether the pages were asked for one after the other: none before the last finished the export.
pub open spec fn paged(limit: u32, pages: Seq<TakenPage>) -> bool {
    forall|k: int|
        0 < k < pages.len() ==> !finished(
            #[trigger] after_pages(limit, pages.take(k)),
            pages[k - 1].items.len() == 0,
            pages[k - 1].paging,
        )
}

/// A run that went on after each page but the last stops at the last page if and only if this is
/// the first page that is empty, is marked as the last, or completes the number of items.
pub proof fn paging_stops_at_the_first_end(limit: u32, pages: Seq<TakenPage>)
    requires
        pages.len() > 0,
        all_items(pages).len() <= usize::MAX,
        limit * (pages.len() - 1) <= u32::MAX,
    ensures
        paged(limit, pages) && finished(
            after_pages(limit, pages),
            pages.last().items.len() == 0,
            pages.last().paging,
        ) <==> ends_paging(pages) && forall|k: int|
            0 < k < pages.len() ==> !ends_paging(#[trigger] pages.take(k)),
{
    pages_are_put_together(limit, pages);
    assert forall|k: int| 0 < k < pages.len() implies finished(
        #[trigger] after_pages(limit, pages.take(k)),
        pages[k - 1].items.len() == 0,
        pages[k - 1].paging,
    ) == ends_paging(pages.take(k)) by {
        let some = pages.take(k);
        assert(some.last() == pages[k - 1]);
        lemma_items_grow(pages, k);
        assert(limit * (k - 1) <= limit * (pages.len() - 1)) by (nonlinear_arith)
            requires
                0 < k < pages.len(),
                0 <= limit,
        ;
        pages_are_put_together(limit, some);
    }
    assert forall|k: int| 0 < k < pages.len() && paged(limit, pages) implies !ends_paging(
        #[trigger] pages.take(k),
    ) by {
        assert(!finished(
            after_pages(limit, pages.take(k)),
            pages[k - 1].items.len() == 0,
            pages[k - 1].paging,
        ));
    }
}

/// The first pages have no more items than all.
proof fn lemma_items_grow(pages: Seq<TakenPage>, k: int)
    requires
        0 <= k <= pages.len(),
    ensures
        all_items(pages.take(k)).len() <= all_items(pages).len(),
    decreases pages.len(),
{
    if k == pages.len() {
        assert(pages.take(k) =~= pages);
    } else {
        lemma_items_grow(pages.drop_last(), k);
        assert(pages.drop_last().take(k) =~= pages.take(k));
    }
}

} // verus!

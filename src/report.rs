use vstd::prelude::*;
use crate::labels::{LabelMap, label_for_extension, label_of, opt_view};
use crate::text::{extension_key, extension_string, text_less, text_lt, lemma_text_lt_total,
    lemma_text_lt_transitive};

verus! {

/// One group of files that share an extension.
pub struct FileRow {
    pub extension: String,
    pub label: Option<String>,
    pub count: usize,
    pub files: Vec<String>,
}

/// The report on one scanned root.
pub struct OutputTable {
    pub title: String,
    pub total_files: usize,
    pub rows: Vec<FileRow>,
}

/// What walking one root found: its display string and its files in the order
/// of discovery.
pub struct RootScan {
    pub title: String,
    pub files: Vec<String>,
}

/// The report on all scanned roots, in input order.
pub struct ExtensionReporter {
    pub results: Vec<OutputTable>,
}

/// The characters of each string.
pub open spec fn views(s: Seq<String>) -> Seq<Seq<char>> {
    s.map_values(|x: String| x@)
}

/// The files of `files` whose extension key is `key`, in their order.
pub open spec fn files_with_key(files: Seq<Seq<char>>, key: Seq<char>) -> Seq<Seq<char>>
    decreases files.len(),
{
    if files.len() == 0 {
        Seq::empty()
    } else {
        let rest = files_with_key(files.drop_last(), key);
        if extension_key(files.last()) == key {
            rest.push(files.last())
        } else {
            rest
        }
    }
}

/// The sum of the rows' counts.
pub open spec fn sum_counts(rows: Seq<FileRow>) -> int
    decreases rows.len(),
{
    if rows.len() == 0 {
        0
    } else {
        sum_counts(rows.drop_last()) + rows.last().count
    }
}

/// Rows in strictly ascending order of extension, so each extension once.
pub open spec fn rows_sorted(rows: Seq<FileRow>) -> bool {
    forall|a: int, b: int|
        0 <= a < b < rows.len() ==> text_lt(#[trigger] rows[a].extension@, #[trigger] rows[b].extension@)
}

impl FileRow {
    /// The row is the group of `files` under its extension, labelled from `labels`.
    pub open spec fn is_group_of(&self, files: Seq<Seq<char>>, labels: Map<Seq<char>, Seq<char>>) -> bool {
        &&& views(self.files@) == files_with_key(files, self.extension@)
        &&& self.count == self.files@.len()
        &&& self.count > 0
        &&& opt_view(self.label) == label_of(labels, self.extension@)
    }
}

impl OutputTable {
    /// The table groups `files`, found under the root `title`, by extension.
    pub open spec fn is_table_of(
        &self,
        title: Seq<char>,
        files: Seq<Seq<char>>,
        labels: Map<Seq<char>, Seq<char>>,
    ) -> bool {
        &&& self.title@ == title
        &&& self.total_files == files.len()
        &&& sum_counts(self.rows@) == self.total_files
        &&& rows_sorted(self.rows@)
        &&& forall|r: int| 0 <= r < self.rows@.len() ==> (#[trigger] self.rows@[r]).is_group_of(files, labels)
        &&& forall|j: int| 0 <= j < files.len() ==> exists|r: int|
            0 <= r < self.rows@.len() && (#[trigger] self.rows@[r]).extension@ == extension_key(#[trigger] files[j])
    }
}

impl ExtensionReporter {
    /// One table for each scanned root, in the order of `scans`.
    pub fn new(scans: Vec<RootScan>, labels: &LabelMap) -> (r: ExtensionReporter)
        ensures
            r.results@.len() == scans@.len(),
            forall|i: int| 0 <= i < scans@.len() ==> (#[trigger] r.results@[i]).is_table_of(
                scans@[i].title@, views(scans@[i].files@), labels@),
    {
        let mut results: Vec<OutputTable> = Vec::new();
        let mut i: usize = 0;
        while i < scans.len()
            invariant
                i <= scans@.len(),
                results@.len() == i,
                forall|k: int| 0 <= k < i ==> (#[trigger] results@[k]).is_table_of(
                    scans@[k].title@, views(scans@[k].files@), labels@),
            decreases scans@.len() - i,
        {
            let scan = &scans[i];
            let table = build_table(scan.title.clone(), &scan.files, labels);
            results.push(table);
            i = i + 1;
        }
        ExtensionReporter { results }
    }
}

/// In sorted rows no extension stands in two rows.
pub proof fn lemma_extensions_unique(rows: Seq<FileRow>, a: int, b: int)
    requires
        rows_sorted(rows),
        0 <= a < rows.len(),
        0 <= b < rows.len(),
        a != b,
    ensures
        rows[a].extension@ != rows[b].extension@,
{
    if a < b {
        lemma_text_lt_irreflexive_ne(rows[a].extension@, rows[b].extension@);
    } else {
        lemma_text_lt_irreflexive_ne(rows[b].extension@, rows[a].extension@);
    }
}

/// A row with the empty extension can only be the first row.
pub proof fn lemma_empty_extension_first(rows: Seq<FileRow>, j: int)
    requires
        rows_sorted(rows),
        0 <= j < rows.len(),
        rows[j].extension@.len() == 0,
    ensures
        j == 0,
{
    if j > 0 {
        assert(text_lt(rows[0].extension@, rows[j].extension@));
    }
}

proof fn lemma_sum_update(s: Seq<FileRow>, p: int, x: FileRow)
    requires
        0 <= p < s.len(),
    ensures
        sum_counts(s.update(p, x)) == sum_counts(s) - s[p].count + x.count,
    decreases s.len(),
{
    if p == s.len() - 1 {
        assert(s.update(p, x).drop_last() =~= s.drop_last());
    } else {
        lemma_sum_update(s.drop_last(), p, x);
        assert(s.update(p, x).drop_last() =~= s.drop_last().update(p, x));
    }
}

proof fn lemma_sum_insert(s: Seq<FileRow>, p: int, x: FileRow)
    requires
        0 <= p <= s.len(),
    ensures
        sum_counts(s.insert(p, x)) == sum_counts(s) + x.count,
    decreases s.len(),
{
    if p == s.len() {
        assert(s.insert(p, x).drop_last() =~= s);
    } else {
        lemma_sum_insert(s.drop_last(), p, x);
        assert(s.insert(p, x).drop_last() =~= s.drop_last().insert(p, x));
    }
}

/// Groups the files found under one root into a table.
#[verifier::rlimit(50)]
pub fn build_table(title: String, files: &Vec<String>, labels: &LabelMap) -> (t: OutputTable)
    ensures
        t.is_table_of(title@, views(files@), labels@),
        t.total_files == files@.len(),
        sum_counts(t.rows@) == t.total_files,
        rows_sorted(t.rows@),
{
    let ghost fs = views(files@);
    let mut rows: Vec<FileRow> = Vec::new();
    let mut i: usize = 0;
    while i < files.len()
        invariant
            i <= files@.len(),
            fs == views(files@),
            rows_sorted(rows@),
            sum_counts(rows@) == i,
            forall|r: int| 0 <= r < rows@.len() ==> (#[trigger] rows@[r]).is_group_of(fs.take(i as int), labels@),
            forall|j: int| 0 <= j < i ==> exists|r: int|
                0 <= r < rows@.len() && (#[trigger] rows@[r]).extension@ == extension_key(#[trigger] fs[j]),
        decreases files@.len() - i,
    {
        let file = &files[i];
        let key = extension_string(file.as_str());
        let ghost pre = fs.take(i as int);
        let ghost post = fs.take(i + 1);
        assert(post.drop_last() =~= pre);
        assert(post.last() == file@);
        let mut p: usize = 0;
        while p < rows.len() && text_less(rows[p].extension.as_str(), key.as_str())
            invariant
                p <= rows@.len(),
                forall|q: int| 0 <= q < p ==> text_lt(#[trigger] rows@[q].extension@, key@),
            decreases rows@.len() - p,
        {
            p = p + 1;
        }
        let ghost old_rows = rows@;
        if p < rows.len() && rows[p].extension == key {
            let mut row = rows.remove(p);
            row.files.push(file.clone());
            row.count = row.files.len();
            rows.insert(p, row);
            proof {
                assert(rows@ =~= old_rows.update(p as int, row));
                lemma_sum_update(old_rows, p as int, row);
                assert(views(row.files@) =~= views(old_rows[p as int].files@).push(file@));
                assert forall|r: int| 0 <= r < rows@.len() implies (#[trigger] rows@[r]).is_group_of(post, labels@) by {
                    assert(old_rows[r].is_group_of(pre, labels@));
                }
                assert forall|j: int| 0 <= j < i + 1 implies exists|r: int|
                    0 <= r < rows@.len() && (#[trigger] rows@[r]).extension@ == extension_key(#[trigger] fs[j]) by {
                    if j == i {
                        assert(rows@[p as int].extension@ == extension_key(fs[j]));
                    } else {
                        let r = choose|r: int| 0 <= r < old_rows.len() && (#[trigger] old_rows[r]).extension@ == extension_key(fs[j]);
                        assert(rows@[r].extension@ == extension_key(fs[j]));
                    }
                }
            }
        } else {
            let mut names: Vec<String> = Vec::new();
            names.push(file.clone());
            let label = label_for_extension(labels, key.as_str());
            let row = FileRow { extension: key, label, count: 1, files: names };
            rows.insert(p, row);
            proof {
                lemma_insert_position(old_rows, p as int, row);
                lemma_sum_insert(old_rows, p as int, row);
                assert(views(row.files@) =~= seq![file@]);
                assert(files_with_key(pre, key@) =~= Seq::<Seq<char>>::empty()) by {
                    lemma_no_group(pre, key@, old_rows);
                }
                assert(files_with_key(post, key@) =~= seq![file@]);
                assert forall|r: int| 0 <= r < rows@.len() implies (#[trigger] rows@[r]).is_group_of(post, labels@) by {
                    if r < p {
                        assert(old_rows[r].is_group_of(pre, labels@));
                        lemma_text_lt_irreflexive_ne(old_rows[r].extension@, key@);
                    } else if r > p {
                        assert(old_rows[r - 1].is_group_of(pre, labels@));
                        lemma_text_lt_irreflexive_ne(key@, old_rows[r - 1].extension@);
                    }
                }
                assert forall|j: int| 0 <= j < i + 1 implies exists|r: int|
                    0 <= r < rows@.len() && (#[trigger] rows@[r]).extension@ == extension_key(#[trigger] fs[j]) by {
                    if j == i {
                        assert(rows@[p as int].extension@ == extension_key(fs[j]));
                    } else {
                        let r = choose|r: int| 0 <= r < old_rows.len() && (#[trigger] old_rows[r]).extension@ == extension_key(fs[j]);
                        if r < p {
                            assert(rows@[r].extension@ == extension_key(fs[j]));
                        } else {
                            assert(rows@[r + 1].extension@ == extension_key(fs[j]));
                        }
                    }
                }
            }
        }
        i = i + 1;
    }
    assert(fs.take(i as int) =~= fs);
    OutputTable { title, total_files: files.len(), rows }
}

/// Where `x` goes into sorted rows: after the rows below its extension, before
/// the others, which all lie above it.
proof fn lemma_insert_position(rows: Seq<FileRow>, p: int, x: FileRow)
    requires
        rows_sorted(rows),
        0 <= p <= rows.len(),
        forall|q: int| 0 <= q < p ==> text_lt(#[trigger] rows[q].extension@, x.extension@),
        p < rows.len() ==> !text_lt(rows[p].extension@, x.extension@) && rows[p].extension@ != x.extension@,
    ensures
        forall|r: int| p <= r < rows.len() ==> text_lt(x.extension@, #[trigger] rows[r].extension@),
        forall|r: int| 0 <= r < rows.len() ==> (#[trigger] rows[r]).extension@ != x.extension@,
        rows_sorted(rows.insert(p, x)),
{
    let key = x.extension@;
    if p < rows.len() {
        lemma_text_lt_total(rows[p].extension@, key);
    }
    assert forall|r: int| p <= r < rows.len() implies text_lt(key, #[trigger] rows[r].extension@) by {
        if r > p {
            lemma_text_lt_transitive(key, rows[p].extension@, rows[r].extension@);
        }
    }
    assert forall|r: int| 0 <= r < rows.len() implies (#[trigger] rows[r]).extension@ != key by {
        if r < p {
            lemma_text_lt_irreflexive_ne(rows[r].extension@, key);
        } else {
            lemma_text_lt_irreflexive_ne(key, rows[r].extension@);
        }
    }
    let s = rows.insert(p, x);
    assert forall|a: int, b: int| 0 <= a < b < s.len() implies text_lt(
        #[trigger] s[a].extension@, #[trigger] s[b].extension@) by {
        if b == p {
        } else if a == p {
            assert(text_lt(key, rows[b - 1].extension@));
        } else if a > p {
            assert(text_lt(rows[a - 1].extension@, rows[b - 1].extension@));
        } else if b > p {
            assert(text_lt(rows[a].extension@, rows[b - 1].extension@));
        } else {
            assert(text_lt(rows[a].extension@, rows[b].extension@));
        }
    }
}

proof fn lemma_text_lt_irreflexive_ne(a: Seq<char>, b: Seq<char>)
    requires
        text_lt(a, b),
    ensures
        a != b,
{
    if a == b {
        crate::text::lemma_text_lt_irreflexive(a);
    }
}

/// A key that no row holds has no file among those the rows group.
proof fn lemma_no_group(
    files: Seq<Seq<char>>,
    key: Seq<char>,
    rows: Seq<FileRow>,
)
    requires
        forall|j: int| 0 <= j < files.len() ==> exists|r: int|
            0 <= r < rows.len() && (#[trigger] rows[r]).extension@ == extension_key(#[trigger] files[j]),
        forall|r: int| 0 <= r < rows.len() ==> (#[trigger] rows[r]).extension@ != key,
    ensures
        files_with_key(files, key).len() == 0,
    decreases files.len(),
{
    if files.len() > 0 {
        let j = files.len() - 1;
        let r = choose|r: int| 0 <= r < rows.len() && (#[trigger] rows[r]).extension@ == extension_key(files[j]);
        assert forall|j2: int| 0 <= j2 < files.drop_last().len() implies exists|r: int|
            0 <= r < rows.len() && (#[trigger] rows[r]).extension@ == extension_key(#[trigger] files.drop_last()[j2]) by {
            assert(files.drop_last()[j2] == files[j2]);
        }
        lemma_no_group(files.drop_last(), key, rows);
    }
}

} // verus!

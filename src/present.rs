use vstd::prelude::*;
use vstd::string::*;
use vstd::multiset::Multiset;
use vstd::utf8::encode_utf8;
use crate::report::views;
use crate::report::FileRow;
use crate::text::{text_less, text_lt, lemma_text_lt_transitive, lemma_text_lt_irreflexive,
    lemma_text_lt_total};

verus! {

/// Wraps `input` in the terminal escape sequence `code` when `enabled`.
pub open spec fn styled(input: Seq<char>, code: Seq<char>, enabled: bool) -> Seq<char> {
    if enabled {
        seq!['\x1b', '['] + code + seq!['m'] + input + seq!['\x1b', '[', '0', 'm']
    } else {
        input
    }
}

fn paint(input: &str, code: &str, enabled: bool) -> (r: String)
    ensures
        r@ == styled(input@, code@, enabled),
{
    if enabled {
        let mut r = String::from_str("\x1b[");
        r.append(code);
        r.append("m");
        r.append(input);
        r.append("\x1b[0m");
        proof {
            reveal_strlit("\x1b[");
            reveal_strlit("m");
            reveal_strlit("\x1b[0m");
            assert(r@ =~= styled(input@, code@, enabled));
        }
        r
    } else {
        input.to_owned()
    }
}

/// `input` in blue when `enabled`.
pub fn blue(input: &str, enabled: bool) -> (r: String)
    ensures
        r@ == styled(input@, seq!['3', '4'], enabled),
{
    proof {
        reveal_strlit("34");
    }
    paint(input, "34", enabled)
}

/// `input` in yellow when `enabled`.
pub fn yellow(input: &str, enabled: bool) -> (r: String)
    ensures
        r@ == styled(input@, seq!['3', '3'], enabled),
{
    proof {
        reveal_strlit("33");
    }
    paint(input, "33", enabled)
}

/// `input` in bold when `enabled`.
pub fn bold(input: &str, enabled: bool) -> (r: String)
    ensures
        r@ == styled(input@, seq!['1'], enabled),
{
    proof {
        reveal_strlit("1");
    }
    paint(input, "1", enabled)
}

/// What a row is shown as: its label, or else its extension.
pub fn row_label(row: &FileRow) -> (r: &str)
    ensures
        r@ == match row.label {
            Some(l) => l@,
            None => row.extension@,
        },
{
    match &row.label {
        Some(l) => l.as_str(),
        None => row.extension.as_str(),
    }
}


/// The order in which rows are presented.
#[derive(Clone, Copy, Debug, PartialEq, Eq)]
pub enum SortKey {
    /// Most files first, then by extension.
    Count,
    /// By extension, then most files first.
    Ext,
    /// Longest file list first, then by extension.
    Files,
}

/// Whether row `a` is presented before row `b` under `key`, before any reversal.
pub open spec fn key_before(a: FileRow, b: FileRow, key: SortKey) -> bool {
    match key {
        SortKey::Count => a.count > b.count || (a.count == b.count && text_lt(a.extension@, b.extension@)),
        SortKey::Ext => text_lt(a.extension@, b.extension@) || (a.extension@ == b.extension@ && a.count > b.count),
        SortKey::Files => a.files@.len() > b.files@.len() || (a.files@.len() == b.files@.len()
            && text_lt(a.extension@, b.extension@)),
    }
}

/// Whether row `a` is presented before row `b`.
pub open spec fn row_before(a: FileRow, b: FileRow, key: SortKey, reverse: bool) -> bool {
    if reverse {
        key_before(b, a, key)
    } else {
        key_before(a, b, key)
    }
}

/// No row is presented after a row that comes after it.
pub open spec fn presented_in_order(rows: Seq<FileRow>, key: SortKey, reverse: bool) -> bool {
    forall|i: int, j: int| 0 <= i < j < rows.len() ==> !row_before(#[trigger] rows[j], #[trigger] rows[i], key, reverse)
}

proof fn lemma_key_before_irreflexive(a: FileRow, key: SortKey)
    ensures
        !key_before(a, a, key),
{
    lemma_text_lt_irreflexive(a.extension@);
}

proof fn lemma_key_before_transitive(a: FileRow, b: FileRow, c: FileRow, key: SortKey)
    requires
        key_before(a, b, key),
        key_before(b, c, key),
    ensures
        key_before(a, c, key),
{
    if text_lt(a.extension@, b.extension@) && text_lt(b.extension@, c.extension@) {
        lemma_text_lt_transitive(a.extension@, b.extension@, c.extension@);
    }
}

fn key_precedes(a: &FileRow, b: &FileRow, key: SortKey) -> (r: bool)
    ensures
        r == key_before(*a, *b, key),
{
    match key {
        SortKey::Count => a.count > b.count || (a.count == b.count && text_less(
            a.extension.as_str(),
            b.extension.as_str(),
        )),
        SortKey::Ext => text_less(a.extension.as_str(), b.extension.as_str()) || (a.extension
            == b.extension && a.count > b.count),
        SortKey::Files => a.files.len() > b.files.len() || (a.files.len() == b.files.len()
            && text_less(a.extension.as_str(), b.extension.as_str())),
    }
}

/// Whether row `a` is presented before row `b`.
pub fn precedes(a: &FileRow, b: &FileRow, key: SortKey, reverse: bool) -> (r: bool)
    ensures
        r == row_before(*a, *b, key, reverse),
{
    if reverse {
        key_precedes(b, a, key)
    } else {
        key_precedes(a, b, key)
    }
}

/// Neither row is presented before the other.
pub open spec fn tied(a: FileRow, b: FileRow, key: SortKey, reverse: bool) -> bool {
    !row_before(a, b, key, reverse) && !row_before(b, a, key, reverse)
}

/// `arranged` holds the rows of `rows` at the distinct positions `from`
/// (`arranged[i]` is `rows[from[i]]`), tied rows in their order in `rows`.
pub open spec fn stable_arrangement(
    arranged: Seq<FileRow>,
    rows: Seq<FileRow>,
    from: Seq<int>,
    key: SortKey,
    reverse: bool,
) -> bool {
    &&& from.len() == arranged.len()
    &&& forall|i: int| 0 <= i < arranged.len() ==> 0 <= #[trigger] from[i] < rows.len() && arranged[i] == rows[from[i]]
    &&& forall|i: int, j: int| 0 <= i < j < arranged.len() ==> #[trigger] from[i] != #[trigger] from[j]
    &&& forall|i: int, j: int|
        0 <= i < j < arranged.len() && tied(#[trigger] arranged[i], #[trigger] arranged[j], key, reverse)
            ==> from[i] < from[j]
}

/// Tied rows compare alike with every other row.
proof fn lemma_tied_alike(a: FileRow, b: FileRow, z: FileRow, key: SortKey, reverse: bool)
    requires
        tied(a, b, key, reverse),
    ensures
        row_before(a, z, key, reverse) == row_before(b, z, key, reverse),
        row_before(z, a, key, reverse) == row_before(z, b, key, reverse),
{
    lemma_text_lt_total(a.extension@, b.extension@);
}

/// Puts the rows in presentation order under `key`, reversed if `reverse`;
/// rows that neither precedes keep their relative order.
pub fn sort_rows(rows: &mut Vec<FileRow>, key: SortKey, reverse: bool)
    ensures
        final(rows)@.to_multiset() == old(rows)@.to_multiset(),
        presented_in_order(final(rows)@, key, reverse),
        final(rows)@.len() == old(rows)@.len(),
        exists|from: Seq<int>| stable_arrangement(final(rows)@, old(rows)@, from, key, reverse),
{
    broadcast use vstd::seq_lib::group_to_multiset_ensures, vstd::multiset::group_multiset_axioms;

    let ghost start = rows@.to_multiset();
    let ghost orig = rows@;
    let ghost mut from: Seq<int> = Seq::empty();
    let ghost mut k: int = 0;
    assert(orig.skip(0) =~= orig);
    let mut out: Vec<FileRow> = Vec::new();
    proof {
        assert(out@.to_multiset() =~= Multiset::empty());
    }
    while rows.len() > 0
        invariant
            out@.to_multiset().add(rows@.to_multiset()) == start,
            presented_in_order(out@, key, reverse),
            0 <= k <= orig.len(),
            rows@ == orig.skip(k),
            out@.len() == k,
            stable_arrangement(out@, orig, from, key, reverse),
            forall|i: int| 0 <= i < from.len() ==> #[trigger] from[i] < k,
        decreases rows@.len(),
    {
        let ghost before_rows = rows@;
        let x = rows.remove(0);
        assert(x == orig[k]);
        let mut p: usize = 0;
        while p < out.len() && !precedes(&x, &out[p], key, reverse)
            invariant
                p <= out@.len(),
                forall|q: int| 0 <= q < p ==> !row_before(x, #[trigger] out@[q], key, reverse),
                presented_in_order(out@, key, reverse),
                x == orig[k],
            decreases out@.len() - p,
        {
            p = p + 1;
        }
        let ghost before_out = out@;
        out.insert(p, x);
        proof {
            assert forall|i: int, j: int| 0 <= i < j < out@.len() implies !row_before(
                #[trigger] out@[j], #[trigger] out@[i], key, reverse) by {
                if i == p {
                    lemma_not_before_inserted(before_out, p as int, x, j - 1, key, reverse);
                } else if j == p {
                } else if i < p && j > p {
                    assert(!row_before(before_out[j - 1], before_out[i], key, reverse));
                } else if i > p {
                    assert(!row_before(before_out[j - 1], before_out[i - 1], key, reverse));
                } else {
                    assert(!row_before(before_out[j], before_out[i], key, reverse));
                }
            }
            assert(before_rows.to_multiset() =~= rows@.to_multiset().insert(x)) by {
                assert(before_rows.remove(0) == rows@);
                vstd::seq_lib::to_multiset_remove(before_rows, 0);
                vstd::seq_lib::to_multiset_contains(before_rows, x);
                assert(before_rows.contains(x));
                assert(before_rows.to_multiset().count(x) > 0);
            }
            let ghost old_from = from;
            from = from.insert(p as int, k);
            assert forall|i: int| 0 <= i < out@.len() implies 0 <= #[trigger] from[i] < orig.len()
                && out@[i] == orig[from[i]] by {
                if i > p {
                    assert(from[i] == old_from[i - 1]);
                }
            }
            assert forall|i: int, j: int| 0 <= i < j < out@.len() && tied(
                #[trigger] out@[i], #[trigger] out@[j], key, reverse) implies from[i] < from[j] by {
                if i == p {
                    lemma_tied_alike(x, out@[j], before_out[p as int], key, reverse);
                    if j - 1 > p {
                        assert(!row_before(before_out[j - 1], before_out[p as int], key, reverse));
                    } else {
                        lemma_key_before_irreflexive(x, key);
                    }
                } else if j == p {
                    assert(old_from[i] < k);
                } else if i > p {
                    assert(tied(before_out[i - 1], before_out[j - 1], key, reverse));
                } else if j > p {
                    assert(tied(before_out[i], before_out[j - 1], key, reverse));
                } else {
                    assert(tied(before_out[i], before_out[j], key, reverse));
                }
            }
            assert forall|i: int, j: int| 0 <= i < j < out@.len() implies #[trigger] from[i] != #[trigger] from[j] by {
                if i == p {
                    assert(old_from[j - 1] < k);
                } else if j == p {
                    assert(old_from[i] < k);
                } else if i > p {
                    assert(old_from[i - 1] != old_from[j - 1]);
                } else if j > p {
                    assert(old_from[i] != old_from[j - 1]);
                } else {
                    assert(old_from[i] != old_from[j]);
                }
            }
            assert forall|i: int| 0 <= i < from.len() implies #[trigger] from[i] < k + 1 by {
                if i < p {
                    assert(old_from[i] < k);
                } else if i > p {
                    assert(old_from[i - 1] < k);
                }
            }
            assert(rows@ =~= orig.skip(k + 1));
            k = k + 1;
            vstd::seq_lib::to_multiset_insert(before_out, p as int, x);
            assert(out@.to_multiset() == before_out.to_multiset().insert(x));
            assert(out@.to_multiset().add(rows@.to_multiset()) =~= start);
        }
    }
    proof {
        assert(rows@.to_multiset() =~= Multiset::empty());
        assert(out@.to_multiset() =~= start);
        assert(stable_arrangement(out@, orig, from, key, reverse));
    }
    *rows = out;
}

proof fn lemma_row_before_transitive(a: FileRow, b: FileRow, c: FileRow, key: SortKey, reverse: bool)
    requires
        row_before(a, b, key, reverse),
        row_before(b, c, key, reverse),
    ensures
        row_before(a, c, key, reverse),
{
    if reverse {
        lemma_key_before_transitive(c, b, a, key);
    } else {
        lemma_key_before_transitive(a, b, c, key);
    }
}

/// No row from the insertion point on precedes `x`, which precedes the row
/// at the insertion point.
proof fn lemma_not_before_inserted(
    s: Seq<FileRow>,
    p: int,
    x: FileRow,
    j: int,
    key: SortKey,
    reverse: bool,
)
    requires
        presented_in_order(s, key, reverse),
        0 <= p <= j < s.len(),
        row_before(x, s[p], key, reverse),
    ensures
        !row_before(s[j], x, key, reverse),
{
    if row_before(s[j], x, key, reverse) {
        lemma_row_before_transitive(s[j], x, s[p], key, reverse);
        if j == p {
            lemma_key_before_irreflexive(s[p], key);
        }
    }
}


/// The decimal digit `d`.
pub open spec fn digit(d: nat) -> char {
    seq!['0', '1', '2', '3', '4', '5', '6', '7', '8', '9'][d as int]
}

/// The decimal numeral of `n`, without leading zeros.
pub open spec fn decimal(n: nat) -> Seq<char>
    decreases n,
{
    if n < 10 {
        seq![digit(n)]
    } else {
        decimal(n / 10).push(digit(n % 10))
    }
}

/// Relies on the standard `Display` of `usize` (through `ToString`): the
/// decimal numeral of `n`.
#[verifier::external_body]
fn decimal_string(n: usize) -> (r: String)
    ensures
        r@ == decimal(n as nat),
{
    n.to_string()
}

/// The line that stands for files left out of a listing.
pub open spec fn more_files_line(remaining: nat) -> Seq<char> {
    decimal(remaining) + seq![' ', 'm', 'o', 'r', 'e', ' ', 'f', 'i', 'l', 'e', 's']
}

/// The lines that list `files` under `limit` (0: no limit): all files, or
/// the first `limit` of them and a line that counts the rest.
pub open spec fn shown_files(files: Seq<Seq<char>>, limit: nat) -> Seq<Seq<char>> {
    if limit > 0 && files.len() > limit {
        files.take(limit as int).push(more_files_line((files.len() - limit) as nat))
    } else {
        files
    }
}

/// The length of `s` in UTF-8 bytes.
pub open spec fn byte_len(s: Seq<char>) -> usize {
    encode_utf8(s).len() as usize
}

/// The largest byte length among `lines`, 0 for none.
pub open spec fn widest(lines: Seq<Seq<char>>) -> usize
    decreases lines.len(),
{
    if lines.len() == 0 {
        0
    } else if widest(lines.drop_last()) >= byte_len(lines.last()) {
        widest(lines.drop_last())
    } else {
        byte_len(lines.last())
    }
}

/// The lines that list a row's files under `limit` (0: no limit), and the
/// byte length of the longest of them.
pub fn display_files(row: &FileRow, limit: usize) -> (r: (usize, Vec<String>))
    ensures
        views(r.1@) == shown_files(views(row.files@), limit as nat),
        r.0 == widest(views(r.1@)),
{
    let ghost fs = views(row.files@);
    let n = row.files.len();
    let cut = limit > 0 && n > limit;
    let take = if cut { limit } else { n };
    let mut lines: Vec<String> = Vec::new();
    let mut i: usize = 0;
    while i < take
        invariant
            take <= n,
            n == row.files@.len(),
            fs == views(row.files@),
            i <= take,
            views(lines@) == fs.take(i as int),
        decreases take - i,
    {
        let ghost before = lines@;
        lines.push(row.files[i].clone());
        proof {
            assert(views(lines@) =~= views(before).push(fs[i as int]));
            assert(fs.take(i + 1) =~= fs.take(i as int).push(fs[i as int]));
        }
        i = i + 1;
    }
    if cut {
        let mut line = decimal_string(n - limit);
        line.append(" more files");
        proof {
            reveal_strlit(" more files");
            assert(line@ =~= more_files_line((n - limit) as nat));
        }
        let ghost before = lines@;
        lines.push(line);
        proof {
            assert(views(lines@) =~= views(before).push(more_files_line((n - limit) as nat)));
        }
    } else {
        proof {
            assert(fs.take(n as int) =~= fs);
        }
    }
    let mut width: usize = 0;
    let mut k: usize = 0;
    while k < lines.len()
        invariant
            k <= lines@.len(),
            width == widest(views(lines@).take(k as int)),
        decreases lines@.len() - k,
    {
        let w = lines[k].as_str().len();
        proof {
            assert(views(lines@).take(k + 1).drop_last() =~= views(lines@).take(k as int));
        }
        if w > width {
            width = w;
        }
        k = k + 1;
    }
    proof {
        assert(views(lines@).take(k as int) =~= views(lines@));
    }
    (width, lines)
}

} // verus!

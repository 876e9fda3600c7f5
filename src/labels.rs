use vstd::prelude::*;
use vstd::string::*;
use crate::text::{lower_char, lower_text, ascii_lower};
use std::collections::BTreeMap;

verus! {

/// The mapping from lower-case, dot-less extensions to display names.
pub struct LabelMap {
    entries: Vec<(String, String)>,
}

/// The mapping that a list of entries stands for: a later entry of a key
/// replaces an earlier one.
pub open spec fn entries_map(s: Seq<(String, String)>) -> Map<Seq<char>, Seq<char>>
    decreases s.len(),
{
    if s.len() == 0 {
        Map::empty()
    } else {
        entries_map(s.drop_last()).insert(s.last().0@, s.last().1@)
    }
}

proof fn lemma_entries_map_prefix(s: Seq<(String, String)>, i: int, k: Seq<char>)
    requires
        0 <= i <= s.len(),
        forall|j: int| i <= j < s.len() ==> s[j].0@ != k,
    ensures
        entries_map(s).contains_key(k) == entries_map(s.take(i)).contains_key(k),
        entries_map(s).contains_key(k) ==> entries_map(s)[k] == entries_map(s.take(i))[k],
    decreases s.len() - i,
{
    if i < s.len() {
        lemma_entries_map_prefix(s.drop_last(), i, k);
        assert(s.drop_last().take(i) =~= s.take(i));
    } else {
        assert(s.take(i) =~= s);
    }
}

impl View for LabelMap {
    type V = Map<Seq<char>, Seq<char>>;

    closed spec fn view(&self) -> Map<Seq<char>, Seq<char>> {
        entries_map(self.entries@)
    }
}

impl LabelMap {
    /// The empty mapping.
    pub fn new() -> (r: LabelMap)
        ensures
            r@ == Map::<Seq<char>, Seq<char>>::empty(),
    {
        LabelMap { entries: Vec::new() }
    }

    /// Maps `key` to `value`, replacing an earlier value of `key`.
    pub fn insert(&mut self, key: String, value: String)
        ensures
            final(self)@ == old(self)@.insert(key@, value@),
    {
        let ghost before = self.entries@;
        self.entries.push((key, value));
        assert(self.entries@.drop_last() =~= before);
    }

    /// The display name of the key that `ext` from position `from` on
    /// becomes when lower-cased.
    fn find(&self, ext: &str, from: usize) -> (r: Option<String>)
        requires
            from <= ext@.len(),
        ensures
            r is Some <==> self@.contains_key(lower_text(ext@.skip(from as int))),
            r is Some ==> r->0@ == self@[lower_text(ext@.skip(from as int))],
    {
        let ghost k = lower_text(ext@.skip(from as int));
        let mut i: usize = self.entries.len();
        proof {
            lemma_entries_map_prefix(self.entries@, i as int, k);
        }
        while i > 0
            invariant
                i <= self.entries@.len(),
                from <= ext@.len(),
                k == lower_text(ext@.skip(from as int)),
                forall|j: int| i <= j < self.entries@.len() ==> self.entries@[j].0@ != k,
            decreases i,
        {
            let entry = &self.entries[i - 1];
            if folded_equal(entry.0.as_str(), ext, from) {
                let ghost s = self.entries@.take(i as int);
                proof {
                    lemma_entries_map_prefix(self.entries@, i as int, k);
                    assert(s.drop_last() =~= self.entries@.take(i - 1));
                }
                return Some(entry.1.clone());
            }
            i = i - 1;
        }
        proof {
            lemma_entries_map_prefix(self.entries@, 0, k);
        }
        None
    }
}

/// Whether `key` is `ext` from position `from` on, lower-cased.
fn folded_equal(key: &str, ext: &str, from: usize) -> (r: bool)
    requires
        from <= ext@.len(),
    ensures
        r == (key@ == lower_text(ext@.skip(from as int))),
{
    let n = key.unicode_len();
    let m = ext.unicode_len();
    if n != m - from {
        return false;
    }
    let mut j: usize = 0;
    while j < n
        invariant
            n == key@.len(),
            m == ext@.len(),
            n == m - from,
            j <= n,
            forall|t: int| 0 <= t < j ==> key@[t] == lower_char(ext@[from + t]),
        decreases n - j,
    {
        if key.get_char(j) != ascii_lower(ext.get_char(from + j)) {
            assert(lower_text(ext@.skip(from as int))[j as int] != key@[j as int]);
            return false;
        }
        j = j + 1;
    }
    assert(key@ =~= lower_text(ext@.skip(from as int)));
    true
}

/// The key under which `extension` is looked up: empty for no extension,
/// else the extension without one leading `.`, lower-cased.
pub open spec fn label_key(extension: Seq<char>) -> Seq<char> {
    if extension.len() > 0 && extension[0] == '.' {
        lower_text(extension.skip(1))
    } else {
        lower_text(extension)
    }
}

/// The display name that `labels` gives to `extension`.
pub open spec fn label_of(labels: Map<Seq<char>, Seq<char>>, extension: Seq<char>) -> Option<
    Seq<char>,
> {
    if extension.len() > 0 && labels.contains_key(label_key(extension)) {
        Some(labels[label_key(extension)])
    } else {
        None
    }
}

/// The characters of an optional string.
pub open spec fn opt_view(o: Option<String>) -> Option<Seq<char>> {
    match o {
        Some(s) => Some(s@),
        None => None,
    }
}

/// Why label data was refused.
#[derive(Clone, Copy, Debug, PartialEq, Eq)]
pub enum LabelError {
    /// The text is not a JSON object whose values are all strings.
    InvalidData,
}

#[verifier::external_type_specification]
#[verifier::external_body]
pub struct ExJsonError(serde_json::Error);

/// The string-to-string object that serde_json reads from `text`, if it
/// reads one.
pub uninterp spec fn json_string_map(text: Seq<char>) -> Option<Map<Seq<char>, Seq<char>>>;

/// Relies on serde_json::from_str into a `BTreeMap<String, String>`: it
/// succeeds exactly when `text` holds such an object; the entries are those
/// of the map it built.
#[verifier::external_body]
fn read_json_labels(text: &str) -> (r: Result<Vec<(String, String)>, serde_json::Error>)
    ensures
        r is Ok <==> json_string_map(text@) is Some,
        r is Ok ==> entries_map(r->Ok_0@) == json_string_map(text@)->0,
{
    serde_json::from_str::<BTreeMap<String, String>>(text).map(|m| m.into_iter().collect())
}

/// The mapping that `entries` stand for, a later entry of a key replacing
/// an earlier one.
pub fn labels_from_entries(entries: Vec<(String, String)>) -> (r: LabelMap)
    ensures
        r@ == entries_map(entries@),
{
    LabelMap { entries }
}

/// Reads a label mapping from JSON text: an object from lower-case,
/// dot-less extensions to display names.
pub fn parse_labels(text: &str) -> (r: Result<LabelMap, LabelError>)
    ensures
        r is Ok <==> json_string_map(text@) is Some,
        r is Ok ==> r->Ok_0@ == json_string_map(text@)->0,
        r is Err ==> r == Err::<LabelMap, LabelError>(LabelError::InvalidData),
{
    match read_json_labels(text) {
        Ok(entries) => Ok(labels_from_entries(entries)),
        Err(_) => Err(LabelError::InvalidData),
    }
}

/// The display name of `extension`: none for the empty extension, else the
/// name that `labels` gives to its lower-cased, dot-less form.
pub fn label_for_extension(labels: &LabelMap, extension: &str) -> (r: Option<String>)
    ensures
        opt_view(r) == label_of(labels@, extension@),
{
    let n = extension.unicode_len();
    if n == 0 {
        return None;
    }
    if extension.get_char(0) == '.' {
        labels.find(extension, 1)
    } else {
        assert(extension@.skip(0) =~= extension@);
        labels.find(extension, 0)
    }
}


/// Looking up an extension ignores ASCII case: an extension and its
/// lower-cased form get the same label.
pub proof fn lemma_label_ignores_case(labels: Map<Seq<char>, Seq<char>>, extension: Seq<char>)
    ensures
        label_of(labels, extension) == label_of(labels, lower_text(extension)),
{
    let low = lower_text(extension);
    if extension.len() > 0 {
        assert(low[0] == '.' <==> extension[0] == '.');
        if extension[0] == '.' {
            assert(lower_text(low.skip(1)) =~= lower_text(extension.skip(1)));
        } else {
            assert(lower_text(low) =~= lower_text(extension));
        }
    }
}

} // verus!

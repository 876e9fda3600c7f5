use vstd::prelude::*;
use vstd::string::*;

verus! {

/// Strict lexicographic order on character sequences, by code point.
pub open spec fn text_lt(a: Seq<char>, b: Seq<char>) -> bool
    decreases a.len(),
{
    if b.len() == 0 {
        false
    } else if a.len() == 0 {
        true
    } else if a[0] != b[0] {
        a[0] < b[0]
    } else {
        text_lt(a.drop_first(), b.drop_first())
    }
}

/// ASCII lower-casing of one character; other characters are kept.
pub open spec fn lower_char(c: char) -> char {
    if 'A' <= c && c <= 'Z' {
        ((c as u8) + 32) as char
    } else {
        c
    }
}

pub open spec fn lower_text(s: Seq<char>) -> Seq<char> {
    Seq::new(s.len(), |i: int| lower_char(s[i]))
}


/// `text_lt` never holds of a sequence and itself.
pub proof fn lemma_text_lt_irreflexive(a: Seq<char>)
    ensures
        !text_lt(a, a),
    decreases a.len(),
{
    if a.len() > 0 {
        lemma_text_lt_irreflexive(a.drop_first());
    }
}

/// Of two distinct sequences, one is below the other.
pub proof fn lemma_text_lt_total(a: Seq<char>, b: Seq<char>)
    ensures
        a != b ==> (text_lt(a, b) || text_lt(b, a)),
    decreases a.len(),
{
    if a.len() > 0 && b.len() > 0 && a[0] == b[0] {
        lemma_text_lt_total(a.drop_first(), b.drop_first());
        if a.drop_first() == b.drop_first() {
            assert(a =~= seq![a[0]] + a.drop_first());
            assert(b =~= seq![b[0]] + b.drop_first());
        }
    } else if a.len() == 0 && b.len() == 0 {
        assert(a =~= b);
    } else if a.len() > 0 && b.len() > 0 {
        assert(a[0] < b[0] || b[0] < a[0]);
    }
}

/// `text_lt` is transitive.
pub proof fn lemma_text_lt_transitive(a: Seq<char>, b: Seq<char>, c: Seq<char>)
    requires
        text_lt(a, b),
        text_lt(b, c),
    ensures
        text_lt(a, c),
    decreases a.len(),
{
    if a.len() > 0 && a[0] == b[0] && b[0] == c[0] {
        lemma_text_lt_transitive(a.drop_first(), b.drop_first(), c.drop_first());
    }
}

/// Whether `a` sorts strictly before `b`, comparing code points from the left.
pub fn text_less(a: &str, b: &str) -> (r: bool)
    ensures
        r == text_lt(a@, b@),
{
    let la = a.unicode_len();
    let lb = b.unicode_len();
    let mut i: usize = 0;
    assert(a@.skip(0) =~= a@);
    assert(b@.skip(0) =~= b@);
    while i < la && i < lb
        invariant
            i <= la,
            i <= lb,
            la == a@.len(),
            lb == b@.len(),
            text_lt(a@, b@) == text_lt(a@.skip(i as int), b@.skip(i as int)),
        decreases la - i,
    {
        let ca = a.get_char(i);
        let cb = b.get_char(i);
        assert(a@.skip(i as int)[0] == ca);
        assert(b@.skip(i as int)[0] == cb);
        if ca != cb {
            return ca < cb;
        }
        assert(a@.skip(i as int).drop_first() =~= a@.skip(i + 1));
        assert(b@.skip(i as int).drop_first() =~= b@.skip(i + 1));
        i = i + 1;
    }
    i < lb
}

/// The extension's dot of `p`: the last `.` of the final path segment,
/// which is not the segment's first character.
pub open spec fn ext_dot(p: Seq<char>, d: int) -> bool {
    &&& 0 < d < p.len()
    &&& p[d] == '.'
    &&& p[d - 1] != '/'
    &&& forall|k: int| d < k < p.len() ==> p[k] != '.' && p[k] != '/'
}

/// The path without the separators and `.` components at its end, which
/// name no file: its last segment is the path's file name.
pub open spec fn trim_end(p: Seq<char>) -> Seq<char>
    decreases p.len(),
{
    if p.len() > 0 && p.last() == '/' {
        trim_end(p.drop_last())
    } else if p.len() >= 2 && p.last() == '.' && p[p.len() - 2] == '/' {
        trim_end(p.drop_last())
    } else {
        p
    }
}

/// The key of a path whose last segment is its file name: `.` followed by
/// the extension as written, or empty where there is none or it is empty.
pub open spec fn segment_key(p: Seq<char>) -> Seq<char> {
    if exists|d: int| ext_dot(p, d) && d + 1 < p.len() {
        let d = choose|d: int| ext_dot(p, d) && d + 1 < p.len();
        seq!['.'] + p.skip(d + 1)
    } else {
        Seq::empty()
    }
}

/// The grouping key of a path, taken from its file name.
pub open spec fn extension_key(p: Seq<char>) -> Seq<char> {
    segment_key(trim_end(p))
}

/// The grouping key of the file at `path`, as `extension_key` states it.
pub fn extension_string(path: &str) -> (r: String)
    ensures
        r@ == extension_key(path@),
{
    let n = path.unicode_len();
    let mut e: usize = n;
    assert(path@.take(n as int) =~= path@);
    while e > 0 && (path.get_char(e - 1) == '/' || (e >= 2 && path.get_char(e - 1) == '.'
        && path.get_char(e - 2) == '/'))
        invariant
            e <= n,
            n == path@.len(),
            trim_end(path@) == trim_end(path@.take(e as int)),
        decreases e,
    {
        assert(path@.take(e as int).drop_last() =~= path@.take(e - 1));
        e = e - 1;
    }
    let ghost t = path@.take(e as int);
    assert(trim_end(t) == t);
    let mut i: usize = e;
    while i > 0 && path.get_char(i - 1) != '.' && path.get_char(i - 1) != '/'
        invariant
            i <= e,
            e <= n,
            n == path@.len(),
            t == path@.take(e as int),
            forall|k: int| i <= k < e ==> t[k] != '.' && t[k] != '/',
        decreases i,
    {
        i = i - 1;
    }
    if i > 1 && i < e && path.get_char(i - 1) == '.' && path.get_char(i - 2) != '/' {
        let d: usize = i - 1;
        assert(ext_dot(t, d as int));
        assert forall|k: int| ext_dot(t, k) && k + 1 < t.len() implies k == d by {
            if k < d {
                assert(t[d as int] == '.');
            } else if k > d {
                assert(t[k] == '.');
            }
        }
        let ext = path.substring_char(i, e);
        let mut r = String::from_str(".");
        proof {
            reveal_strlit(".");
            assert(ext@ =~= t.skip(i as int));
        }
        r.append(ext);
        r
    } else {
        assert forall|k: int| !(ext_dot(t, k) && k + 1 < t.len()) by {
            if ext_dot(t, k) && k + 1 < t.len() {
                if k >= i {
                    assert(t[k] == '.');
                } else if k < i - 1 {
                    assert(t[i - 1] == '.' || t[i - 1] == '/');
                }
            }
        }
        String::new()
    }
}

/// ASCII lower-casing of one character.
pub fn ascii_lower(c: char) -> (r: char)
    ensures
        r == lower_char(c),
{
    if 'A' <= c && c <= 'Z' {
        ((c as u8) + 32) as char
    } else {
        c
    }
}

} // verus!

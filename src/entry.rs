//! Listed directory entries, and the text operations on paths and names
//! that the tree needs: joining, prefix tests and replacement, and ordering.
use vstd::prelude::*;

verus! {

/// One entry of a one-level directory listing.
///
/// `parent` is the full path of the directory that was listed, `path` the
/// entry's own full path and `name` its last component. `modified` is the
/// modification time in seconds since the Unix epoch, where the platform
/// reports one. `is_hidden` tells whether the platform marks the entry hidden.
#[derive(Debug, Clone)]
pub struct FileEntry {
    pub parent: String,
    pub name: String,
    pub path: String,
    pub is_dir: bool,
    pub is_file: bool,
    pub is_symlink: bool,
    pub is_hidden: bool,
    pub size: Option<u64>,
    pub modified: Option<u64>,
}

/// The path separator used when a path is formed from a directory and a name.
pub const SEPARATOR: char = '/';

/// The path of `name` inside the directory `dir`.
pub open spec fn join_path(dir: Seq<char>, name: Seq<char>) -> Seq<char> {
    dir + seq![SEPARATOR] + name
}

/// Two entries are the same value: equal text fields and equal flags.
pub open spec fn same_entry(a: FileEntry, b: FileEntry) -> bool {
    &&& a.parent@ == b.parent@
    &&& a.name@ == b.name@
    &&& a.path@ == b.path@
    &&& a.is_dir == b.is_dir
    &&& a.is_file == b.is_file
    &&& a.is_symlink == b.is_symlink
    &&& a.is_hidden == b.is_hidden
    &&& a.size == b.size
    &&& a.modified == b.modified
}

impl FileEntry {
    /// A copy of this entry.
    pub fn duplicate(&self) -> (r: FileEntry)
        ensures
            same_entry(r, *self),
    {
        FileEntry {
            parent: self.parent.clone(),
            name: self.name.clone(),
            path: self.path.clone(),
            is_dir: self.is_dir,
            is_file: self.is_file,
            is_symlink: self.is_symlink,
            is_hidden: self.is_hidden,
            size: self.size,
            modified: self.modified,
        }
    }
}

/// `dir` joined with `name`.
pub fn join(dir: &String, name: &String) -> (r: String)
    ensures
        r@ == join_path(dir@, name@),
{
    let mut r = dir.clone();
    proof {
        reveal_strlit("/");
    }
    r.append("/");
    r.append(name.as_str());
    r
}

/// Lexicographic order of two texts, character by character, from position `i`.
pub open spec fn text_lt_from(a: Seq<char>, b: Seq<char>, i: int) -> bool
    decreases a.len() - i,
{
    if i < 0 || i >= a.len() {
        0 <= i < b.len()
    } else if i >= b.len() {
        false
    } else if a[i] != b[i] {
        (a[i] as u32) < (b[i] as u32)
    } else {
        text_lt_from(a, b, i + 1)
    }
}

/// `a` sorts strictly before `b` in lexicographic character order.
pub open spec fn text_lt(a: Seq<char>, b: Seq<char>) -> bool {
    text_lt_from(a, b, 0)
}

/// Whether `a` sorts strictly before `b`.
pub fn name_lt(a: &String, b: &String) -> (r: bool)
    ensures
        r == text_lt(a@, b@),
{
    let sa = a.as_str();
    let sb = b.as_str();
    let la = sa.unicode_len();
    let lb = sb.unicode_len();
    let mut i: usize = 0;
    while i < la && i < lb
        invariant
            i <= la,
            i <= lb,
            la == a@.len(),
            lb == b@.len(),
            sa@ == a@,
            sb@ == b@,
            text_lt(a@, b@) == text_lt_from(a@, b@, i as int),
        decreases la - i,
    {
        let ca = sa.get_char(i);
        let cb = sb.get_char(i);
        if ca != cb {
            return (ca as u32) < (cb as u32);
        }
        i = i + 1;
    }
    i < lb && i >= la
}

/// Whether `p` begins with `prefix`.
pub fn starts_with(p: &String, prefix: &String) -> (r: bool)
    ensures
        r == (prefix@.len() <= p@.len() && p@.subrange(0, prefix@.len() as int) == prefix@),
{
    let sp = p.as_str();
    let sq = prefix.as_str();
    let lp = sp.unicode_len();
    let lq = sq.unicode_len();
    if lq > lp {
        return false;
    }
    let mut i: usize = 0;
    while i < lq
        invariant
            i <= lq <= lp,
            lp == p@.len(),
            lq == prefix@.len(),
            sp@ == p@,
            sq@ == prefix@,
            forall|k: int| 0 <= k < i ==> p@[k] == prefix@[k],
        decreases lq - i,
    {
        if sp.get_char(i) != sq.get_char(i) {
            assert(p@.subrange(0, lq as int)[i as int] != prefix@[i as int]);
            return false;
        }
        i = i + 1;
    }
    assert(p@.subrange(0, lq as int) =~= prefix@);
    true
}

/// `prefix` followed by what `p` holds past its first `cut` characters.
pub fn replace_prefix(p: &String, cut: usize, prefix: &String) -> (r: String)
    requires
        cut <= p@.len(),
    ensures
        r@ == prefix@ + p@.subrange(cut as int, p@.len() as int),
{
    let sp = p.as_str();
    let n = sp.unicode_len();
    let rest = sp.substring_char(cut, n);
    let mut r = prefix.clone();
    r.append(rest);
    r
}

/// No text sorts before itself.
pub proof fn lemma_text_lt_irreflexive(a: Seq<char>, i: int)
    requires
        0 <= i,
    ensures
        !text_lt_from(a, a, i),
    decreases a.len() - i,
{
    if i < a.len() {
        lemma_text_lt_irreflexive(a, i + 1);
    }
}

/// Two texts that agree up to `i` are ordered one way or the other from `i`
/// on, or agree from `i` on as well.
pub proof fn lemma_text_lt_total(a: Seq<char>, b: Seq<char>, i: int)
    requires
        0 <= i <= a.len(),
        i <= b.len(),
    ensures
        text_lt_from(a, b, i) || text_lt_from(b, a, i) || (a.len() == b.len() && forall|j: int|
            i <= j < a.len() ==> a[j] == b[j]),
    decreases a.len() - i,
{
    if i < a.len() && i < b.len() && a[i] == b[i] {
        lemma_text_lt_total(a, b, i + 1);
        if a.len() == b.len() && forall|j: int| i + 1 <= j < a.len() ==> a[j] == b[j] {
            assert forall|j: int| i <= j < a.len() implies a[j] == b[j] by {
                if j > i {
                }
            }
        }
    } else if i < a.len() && i < b.len() {
        let (x, y) = (a[i] as u32, b[i] as u32);
        vstd::utf8::char_u32_cast(a[i], x);
        vstd::utf8::char_u32_cast(b[i], y);
        assert(x != y);
    }
}

/// The order is transitive.
pub proof fn lemma_text_lt_transitive(a: Seq<char>, b: Seq<char>, c: Seq<char>, i: int)
    requires
        0 <= i,
        text_lt_from(a, b, i),
        text_lt_from(b, c, i),
    ensures
        text_lt_from(a, c, i),
    decreases a.len() - i,
{
    if i < a.len() && i < b.len() && i < c.len() && a[i] == b[i] && b[i] == c[i] {
        lemma_text_lt_transitive(a, b, c, i + 1);
    } else if i < a.len() && i < b.len() && i < c.len() {
        vstd::utf8::char_u32_cast(a[i], a[i] as u32);
        vstd::utf8::char_u32_cast(b[i], b[i] as u32);
        vstd::utf8::char_u32_cast(c[i], c[i] as u32);
    }
}

/// The order is asymmetric.
pub proof fn lemma_text_lt_asymmetric(a: Seq<char>, b: Seq<char>, i: int)
    requires
        0 <= i,
        text_lt_from(a, b, i),
    ensures
        !text_lt_from(b, a, i),
    decreases a.len() - i,
{
    if i < a.len() && i < b.len() && a[i] == b[i] {
        lemma_text_lt_asymmetric(a, b, i + 1);
    }
}

} // verus!

//! The `.trashinfo` metadata codec.
//!
//! A metadata file is UTF-8 text: the exact header line `[Trash Info]`,
//! then `Key=Value` lines of which only `Path` (percent-encoded raw
//! path bytes) and `DeletionDate` are meaningful.  Unknown keys are
//! ignored; when a key repeats, its first occurrence is authoritative.
//! Serialisation writes the header, the encoded path, and the fixed
//! `YYYY-MM-DDTHH:MM:SS` timestamp, in that order.

use crate::paths;
use crate::percent;
use crate::timestamp::{format_ts_spec, format_timestamp, parse_timestamp, parse_timestamp_spec,
    Timestamp};
use crate::TrashError;
use vstd::prelude::*;

verus! {

/// Information about one trashed file, as its metadata file states it.
#[derive(Debug, Clone, PartialEq, Eq)]
pub struct Trashinfo {
    /// Name under the trash's `files/` directory, without the metadata
    /// extension.
    pub trash_filename: Vec<u8>,
    /// The metadata file's own name: `trash_filename` with `.trashinfo`
    /// appended.
    pub trash_filename_trashinfo: Vec<u8>,
    /// Local time of deletion.
    pub deleted_at: Timestamp,
    /// Absolute path the file was deleted from, unless the metadata
    /// stored a relative path against an empty root.
    pub original_filepath: Vec<u8>,
}

/// The mathematical content of a `Trashinfo`.
pub ghost struct TrashinfoView {
    pub trash_filename: Seq<u8>,
    pub trash_filename_trashinfo: Seq<u8>,
    pub deleted_at: Timestamp,
    pub original_filepath: Seq<u8>,
}

impl View for Trashinfo {
    type V = TrashinfoView;

    open spec fn view(&self) -> TrashinfoView {
        TrashinfoView {
            trash_filename: self.trash_filename@,
            trash_filename_trashinfo: self.trash_filename_trashinfo@,
            deleted_at: self.deleted_at,
            original_filepath: self.original_filepath@,
        }
    }
}

impl DeepView for Trashinfo {
    type V = TrashinfoView;

    open spec fn deep_view(&self) -> TrashinfoView {
        self@
    }
}

/// The bytes of the `.trashinfo` file name extension.
pub open spec fn trashinfo_ext_bytes() -> Seq<u8> {
    seq![46u8, 116, 114, 97, 115, 104, 105, 110, 102, 111]
}

/// Appends the `.trashinfo` extension to a file name.
pub fn append_trashinfo_ext(name: &Vec<u8>) -> (r: Vec<u8>)
    ensures
        r@ == name@ + trashinfo_ext_bytes(),
{
    let mut r = name.clone();
    r.push(46);
    r.push(116);
    r.push(114);
    r.push(97);
    r.push(115);
    r.push(104);
    r.push(105);
    r.push(110);
    r.push(102);
    r.push(111);
    proof {
        assert(r@ =~= name@ + trashinfo_ext_bytes());
    }
    r
}

impl Trashinfo {
    /// A field-for-field copy of this entry.
    pub fn duplicate(&self) -> (r: Trashinfo)
        ensures
            r@ == self@,
    {
        Trashinfo {
            trash_filename: self.trash_filename.clone(),
            trash_filename_trashinfo: self.trash_filename_trashinfo.clone(),
            deleted_at: self.deleted_at,
            original_filepath: self.original_filepath.clone(),
        }
    }

    /// Renames the entry: sets the payload file name and derives the
    /// metadata file name by appending the `.trashinfo` extension.
    pub fn rename(&mut self, new_name: Vec<u8>)
        ensures
            final (self)@.trash_filename == new_name@,
            final (self)@.trash_filename_trashinfo == new_name@ + trashinfo_ext_bytes(),
            final (self)@.deleted_at == old(self)@.deleted_at,
            final (self)@.original_filepath == old(self)@.original_filepath,
    {
        self.trash_filename_trashinfo = append_trashinfo_ext(&new_name);
        self.trash_filename = new_name;
    }
}

/// The characters of the mandatory `[Trash Info]` header line.
pub open spec fn header_chars() -> Seq<char> {
    seq!['[', 'T', 'r', 'a', 's', 'h', ' ', 'I', 'n', 'f', 'o', ']']
}

/// The characters of the `Path` key.
pub open spec fn path_key_chars() -> Seq<char> {
    seq!['P', 'a', 't', 'h']
}

/// The characters of the `DeletionDate` key.
pub open spec fn date_key_chars() -> Seq<char> {
    seq!['D', 'e', 'l', 'e', 't', 'i', 'o', 'n', 'D', 'a', 't', 'e']
}

/// The serialised metadata text for the given stored path bytes and
/// deletion time.
pub open spec fn serialize_spec(path: Seq<u8>, t: Timestamp) -> Seq<char> {
    header_chars() + seq!['\n'] + path_key_chars() + seq!['='] + percent::percent_encode(path)
        + seq!['\n'] + date_key_chars() + seq!['='] + format_ts_spec(t)
}

/// Builds the metadata text as `serialize_spec` states it.
#[verifier::rlimit(50)]
pub fn build_trashinfo_text(path: &Vec<u8>, t: &Timestamp) -> (r: String)
    ensures
        r@ == serialize_spec(path@, *t),
{
    proof {
        reveal_strlit("[Trash Info]\nPath=");
        reveal_strlit("\nDeletionDate=");
    }
    let mut s = String::from_str("[Trash Info]\nPath=");
    let enc = percent::percent_encode_bytes(path);
    s.append(enc.as_str());
    s.append("\nDeletionDate=");
    let ts = format_timestamp(t);
    s.append(ts.as_str());
    proof {
        assert(s@ =~= serialize_spec(path@, *t));
    }
    s
}

impl Trashinfo {
    /// The metadata text with the original path stored absolutely, the
    /// form the home trash uses.
    pub fn trashinfo_file(&self) -> (r: String)
        ensures
            r@ == serialize_spec(self@.original_filepath, self@.deleted_at),
    {
        build_trashinfo_text(&self.original_filepath, &self.deleted_at)
    }

    /// The metadata text with the original path stored relative to
    /// `relative_to`, the form every other trash uses so that a
    /// remounted drive keeps its trash usable.  Fails when the original
    /// path does not lie under `relative_to`.
    pub fn trashinfo_file_relative(&self, relative_to: &Vec<u8>) -> (r: Result<
        String,
        TrashError,
    >)
        ensures
            r is Ok <==> {
                let s = paths::strip_prefix_spec(self@.original_filepath, relative_to@);
                s is Some && !paths::is_absolute_spec(s.unwrap())
            },
            r is Ok ==> r.unwrap()@ == serialize_spec(
                paths::strip_prefix_spec(self@.original_filepath, relative_to@).unwrap(),
                self@.deleted_at,
            ),
            r is Err ==> r.unwrap_err() == TrashError::NotUnderRoot,
    {
        match paths::strip_prefix(&self.original_filepath, relative_to) {
            None => Err(TrashError::NotUnderRoot),
            Some(rel) => {
                proof {
                    assert(rel.deep_view() =~= rel@);
                    assert(paths::strip_prefix_spec(self@.original_filepath, relative_to@)
                        == Some(rel@));
                }
                if paths::is_absolute(&rel) {
                    Err(TrashError::NotUnderRoot)
                } else {
                    Ok(build_trashinfo_text(&rel, &self.deleted_at))
                }
            },
        }
    }
}

/// One line with a trailing carriage return removed, as `str::lines`
/// trims it at a line ending.
pub open spec fn strip_cr(l: Seq<char>) -> Seq<char> {
    if l.len() > 0 && l[l.len() - 1] == '\r' {
        l.drop_last()
    } else {
        l
    }
}

/// The lines of `s`, split at `\n` with a `\r` before the split
/// trimmed, a final line ending optional, collected onto `acc` with
/// `cur` the partial line read so far.
pub open spec fn lines_fold(s: Seq<char>, acc: Seq<Seq<char>>, cur: Seq<char>) -> Seq<Seq<char>>
    decreases s.len(),
{
    if s.len() == 0 {
        if cur.len() > 0 {
            acc.push(cur)
        } else {
            acc
        }
    } else if s[0] == '\n' {
        lines_fold(s.skip(1), acc.push(strip_cr(cur)), Seq::empty())
    } else {
        lines_fold(s.skip(1), acc, cur.push(s[0]))
    }
}

/// The lines of `s`, as `str::lines` yields them.
pub open spec fn lines_spec(s: Seq<char>) -> Seq<Seq<char>> {
    lines_fold(s, Seq::empty(), Seq::empty())
}

/// The lines of `bs` interpreted as character ranges of `s`.
pub open spec fn ranges_to_lines(bs: Seq<(usize, usize)>, s: Seq<char>) -> Seq<Seq<char>> {
    bs.map_values(|p: (usize, usize)| s.subrange(p.0 as int, p.1 as int))
}

/// Computes the character range of every line of `s`, so that line `i`
/// of `lines_spec` is the subrange `bounds[i]`.
pub fn line_bounds(s: &str) -> (r: Vec<(usize, usize)>)
    ensures
        ranges_to_lines(r@, s@) == lines_spec(s@),
        forall|i: int|
            0 <= i < r@.len() ==> 0 <= #[trigger] r@[i].0 && r@[i].0 <= r@[i].1 && r@[i].1
                <= s@.len(),
{
    let n = s.unicode_len();
    let mut bounds: Vec<(usize, usize)> = Vec::new();
    let mut start: usize = 0;
    proof {
        assert(s@.skip(0) =~= s@);
        assert(ranges_to_lines(bounds@, s@) =~~= Seq::<Seq<char>>::empty());
        assert(s@.subrange(0, 0) =~= Seq::<char>::empty());
    }
    for j in 0..n
        invariant
            n == s@.len(),
            start <= j <= n,
            lines_fold(s@.skip(j as int), ranges_to_lines(bounds@, s@), s@.subrange(
                start as int,
                j as int,
            )) == lines_spec(s@),
            forall|i: int|
                0 <= i < bounds@.len() ==> 0 <= #[trigger] bounds@[i].0 && bounds@[i].0
                    <= bounds@[i].1 && bounds@[i].1 <= s@.len(),
    {
        let ghost pre_bounds = bounds@;
        let ghost cur = s@.subrange(start as int, j as int);
        proof {
            assert(s@.skip(j as int).skip(1) =~= s@.skip(j as int + 1));
            assert(s@.skip(j as int)[0] == s@[j as int]);
        }
        if s.get_char(j) == '\n' {
            let end: usize = if j > start && s.get_char(j - 1) == '\r' {
                j - 1
            } else {
                j
            };
            proof {
                if j > start && s@[j as int - 1] == '\r' {
                    assert(cur.len() > 0 && cur[cur.len() - 1] == '\r');
                    assert(strip_cr(cur) =~= s@.subrange(start as int, j as int - 1));
                } else {
                    if cur.len() > 0 {
                        assert(cur[cur.len() - 1] == s@[j as int - 1]);
                    }
                    assert(strip_cr(cur) =~= s@.subrange(start as int, j as int));
                }
            }
            bounds.push((start, end));
            start = j + 1;
            proof {
                assert(ranges_to_lines(bounds@, s@) =~~= ranges_to_lines(pre_bounds, s@).push(
                    strip_cr(cur),
                ));
                assert(s@.subrange(start as int, j as int + 1) =~= Seq::<char>::empty());
                assert(lines_fold(s@.skip(j as int), ranges_to_lines(pre_bounds, s@), cur)
                    == lines_fold(
                    s@.skip(j as int + 1),
                    ranges_to_lines(bounds@, s@),
                    s@.subrange(start as int, j as int + 1),
                ));
            }
        } else {
            proof {
                assert(s@.subrange(start as int, j as int + 1) =~= cur.push(s@[j as int]));
                assert(lines_fold(s@.skip(j as int), ranges_to_lines(bounds@, s@), cur)
                    == lines_fold(
                    s@.skip(j as int + 1),
                    ranges_to_lines(bounds@, s@),
                    s@.subrange(start as int, j as int + 1),
                ));
            }
        }
    }
    proof {
        assert(s@.skip(n as int) =~= Seq::<char>::empty());
    }
    if start < n {
        let ghost pre_bounds = bounds@;
        let ghost cur = s@.subrange(start as int, n as int);
        bounds.push((start, n));
        proof {
            assert(cur.len() > 0);
            assert(ranges_to_lines(bounds@, s@) =~~= ranges_to_lines(pre_bounds, s@).push(cur));
        }
    } else {
        proof {
            assert(s@.subrange(start as int, n as int).len() == 0);
        }
    }
    bounds
}

/// Index of the first occurrence of `c` in `s`, or `-1` when absent.
pub open spec fn first_index_of_char(s: Seq<char>, c: char) -> int
    decreases s.len(),
{
    if s.len() == 0 {
        -1
    } else if s[0] == c {
        0
    } else if first_index_of_char(s.skip(1), c) < 0 {
        -1
    } else {
        first_index_of_char(s.skip(1), c) + 1
    }
}

pub proof fn lemma_first_index_of_char(s: Seq<char>, c: char)
    ensures
        -1 <= first_index_of_char(s, c) < s.len(),
        first_index_of_char(s, c) >= 0 ==> s[first_index_of_char(s, c)] == c,
        forall|j: int| 0 <= j < first_index_of_char(s, c) ==> s[j] != c,
        first_index_of_char(s, c) == -1 ==> forall|j: int| 0 <= j < s.len() ==> s[j] != c,
    decreases s.len(),
{
    if s.len() == 0 {
    } else if s[0] == c {
    } else {
        lemma_first_index_of_char(s.skip(1), c);
        assert forall|j: int| 0 <= j < first_index_of_char(s, c) implies s[j] != c by {
            if j >= 1 {
                assert(s.skip(1)[j - 1] == s[j]);
            }
        }
        if first_index_of_char(s, c) == -1 {
            assert forall|j: int| 0 <= j < s.len() implies s[j] != c by {
                if j >= 1 {
                    assert(s.skip(1)[j - 1] == s[j]);
                }
            }
        }
    }
}

/// Whether a key/value line holds an `=`.
pub open spec fn line_has_eq(l: Seq<char>) -> bool {
    first_index_of_char(l, '=') >= 0
}

/// The key of a line: everything before its first `=`.
pub open spec fn line_key(l: Seq<char>) -> Seq<char> {
    l.subrange(0, first_index_of_char(l, '='))
}

/// The value of a line: everything between its first `=` and its
/// second, or the rest of the line when there is no second.
pub open spec fn line_value(l: Seq<char>) -> Seq<char> {
    let rest = l.skip(first_index_of_char(l, '=') + 1);
    let j = first_index_of_char(rest, '=');
    if j < 0 {
        rest
    } else {
        rest.subrange(0, j)
    }
}

/// The first line at or after index `i` whose key is `key`, or `-1`.
/// Lines before index 1 are never considered: the header is no
/// key/value line.
pub open spec fn first_key_idx_from(ls: Seq<Seq<char>>, key: Seq<char>, i: int) -> int
    decreases ls.len() - i,
{
    if i < 1 || i >= ls.len() {
        -1
    } else if line_has_eq(ls[i]) && line_key(ls[i]) == key {
        i
    } else {
        first_key_idx_from(ls, key, i + 1)
    }
}

/// The first line after the header whose key is `key`, or `-1`.
pub open spec fn first_key_idx(ls: Seq<Seq<char>>, key: Seq<char>) -> int {
    first_key_idx_from(ls, key, 1)
}

/// A found match at `j`, with no match before it, pins `first_key_idx`.
proof fn lemma_first_key_idx_found(ls: Seq<Seq<char>>, key: Seq<char>, i: int, j: int)
    requires
        1 <= i <= j < ls.len(),
        line_has_eq(ls[j]) && line_key(ls[j]) == key,
        forall|k: int| i <= k < j ==> !(line_has_eq(#[trigger] ls[k]) && line_key(ls[k]) == key),
    ensures
        first_key_idx_from(ls, key, i) == j,
    decreases ls.len() - i,
{
    if i < j {
        lemma_first_key_idx_found(ls, key, i + 1, j);
    }
}

/// No match at or after `i` makes `first_key_idx_from` negative.
proof fn lemma_first_key_idx_none(ls: Seq<Seq<char>>, key: Seq<char>, i: int)
    requires
        forall|k: int|
            i <= k < ls.len() && 1 <= k ==> !(line_has_eq(#[trigger] ls[k]) && line_key(ls[k])
                == key),
    ensures
        first_key_idx_from(ls, key, i) == -1,
    decreases ls.len() - i,
{
    if 1 <= i && i < ls.len() {
        lemma_first_key_idx_none(ls, key, i + 1);
    }
}

/// Whether the characters of `s` in `[a, b)` equal `lit`.
fn range_matches(s: &str, a: usize, b: usize, lit: &str) -> (r: bool)
    requires
        a <= b <= s@.len(),
    ensures
        r == (s@.subrange(a as int, b as int) == lit@),
{
    let m = lit.unicode_len();
    if b - a != m {
        assert(s@.subrange(a as int, b as int).len() != lit@.len());
        return false;
    }
    for k in 0..m
        invariant
            m == lit@.len(),
            a + m == b,
            b <= s@.len(),
            forall|j: int| 0 <= j < k ==> s@[a + j] == lit@[j],
    {
        if s.get_char(a + k) != lit.get_char(k) {
            assert(s@.subrange(a as int, b as int)[k as int] != lit@[k as int]);
            return false;
        }
    }
    assert(s@.subrange(a as int, b as int) =~= lit@);
    true
}

/// Position of the first `=` among the characters of `s` in `[a, b)`,
/// tied to `first_index_of_char` of that subrange.
fn find_eq(s: &str, a: usize, b: usize) -> (r: Option<usize>)
    requires
        a <= b <= s@.len(),
    ensures
        match r {
            Some(e) => a <= e < b && e - a == first_index_of_char(
                s@.subrange(a as int, b as int),
                '=',
            ),
            None => first_index_of_char(s@.subrange(a as int, b as int), '=') == -1,
        },
{
    let ghost l = s@.subrange(a as int, b as int);
    for k in a..b
        invariant
            a <= b <= s@.len(),
            l == s@.subrange(a as int, b as int),
            forall|j: int| 0 <= j < k - a ==> #[trigger] l[j] != '=',
    {
        proof {
            assert(l[k - a] == s@[k as int]);
        }
        if s.get_char(k) == '=' {
            proof {
                lemma_first_index_of_char(l, '=');
                let fi = first_index_of_char(l, '=');
                if fi > k - a {
                    assert(l[k - a] != '=');
                }
                if 0 <= fi < k - a {
                    assert(l[fi] != '=');
                }
                if fi == -1 {
                    assert(l[k - a] != '=');
                }
            }
            return Some(k);
        }
    }
    proof {
        lemma_first_index_of_char(l, '=');
        let fi = first_index_of_char(l, '=');
        if fi >= 0 {
            assert(l[fi] != '=');
        }
    }
    None
}

/// The result of parsing a metadata file named `name` with text
/// `content` in a trash rooted at `dev_root`.
///
/// The first line must be exactly the header; every later line must be
/// a `Key=Value` pair; the first `Path` and `DeletionDate` lines are
/// authoritative and both must be present.  The decoded path is used
/// verbatim when absolute, and resolved against `dev_root` when
/// relative.  The entry's names are read from `name` itself.
pub open spec fn parse_trashinfo_spec(name: Seq<u8>, content: Seq<char>, dev_root: Seq<u8>) -> Result<
    TrashinfoView,
    TrashError,
> {
    let ls = lines_spec(content);
    if ls.len() == 0 {
        Err(TrashError::NoFirstLine)
    } else if ls[0] != header_chars() {
        Err(TrashError::BadFirstLine)
    } else if exists|i: int| 1 <= i < ls.len() && !line_has_eq(#[trigger] ls[i]) {
        Err(TrashError::BadLine)
    } else if first_key_idx(ls, path_key_chars()) < 0 {
        Err(TrashError::NoPathEntry)
    } else if first_key_idx(ls, date_key_chars()) < 0 {
        Err(TrashError::NoDeletionDate)
    } else {
        let raw = percent::percent_decode_chars(line_value(ls[first_key_idx(ls, path_key_chars())]));
        let path = if paths::is_absolute_spec(raw) {
            raw
        } else {
            paths::join_spec(dev_root, raw)
        };
        match parse_timestamp_spec(line_value(ls[first_key_idx(ls, date_key_chars())])) {
            None => Err(TrashError::BadTimestamp),
            Some(ts) => Ok(
                TrashinfoView {
                    trash_filename: paths::split_name_spec(name).0,
                    trash_filename_trashinfo: name,
                    deleted_at: ts,
                    original_filepath: path,
                },
            ),
        }
    }
}

/// Parses a metadata file as `parse_trashinfo_spec` states it.
///
/// `name` is the metadata file's own name, `content` its text, and
/// `dev_root` the mount point of the trash it came from, against which
/// a relatively stored path is resolved.
pub fn parse_trashinfo(name: &Vec<u8>, content: &str, dev_root: &Vec<u8>) -> (r: Result<
    Trashinfo,
    TrashError,
>)
    ensures
        r is Ok <==> parse_trashinfo_spec(name@, content@, dev_root@) is Ok,
        r is Ok ==> r.unwrap()@ == parse_trashinfo_spec(name@, content@, dev_root@)->Ok_0,
        r is Err ==> r->Err_0 == parse_trashinfo_spec(name@, content@, dev_root@)->Err_0,
{
    proof {
        reveal_strlit("[Trash Info]");
        reveal_strlit("Path");
        reveal_strlit("DeletionDate");
    }
    let ghost ls = lines_spec(content@);
    let bounds = line_bounds(content);
    if bounds.len() == 0 {
        return Err(TrashError::NoFirstLine);
    }
    let h = bounds[0];
    assert(ls[0] == content@.subrange(h.0 as int, h.1 as int));
    if !range_matches(content, h.0, h.1, "[Trash Info]") {
        assert("[Trash Info]"@ =~= header_chars());
        return Err(TrashError::BadFirstLine);
    }
    assert(ls[0] == header_chars()) by {
        assert("[Trash Info]"@ =~= header_chars());
    }
    let nlines = bounds.len();
    let mut path_val: Option<(usize, usize)> = None;
    let mut date_val: Option<(usize, usize)> = None;
    let ghost mut path_idx: int = -1;
    let ghost mut date_idx: int = -1;
    for i in 1..nlines
        invariant
            nlines == bounds@.len() == ls.len(),
            ls.len() > 0,
            ls[0] == header_chars(),
            ls == lines_spec(content@),
            ranges_to_lines(bounds@, content@) == ls,
            forall|k: int|
                0 <= k < bounds@.len() ==> 0 <= (#[trigger] bounds@[k]).0 && bounds@[k].0
                    <= bounds@[k].1 && bounds@[k].1 <= content@.len(),
            forall|k: int| 1 <= k < i ==> line_has_eq(#[trigger] ls[k]),
            match path_val {
                None => forall|k: int|
                    1 <= k < i ==> !(line_has_eq(#[trigger] ls[k]) && line_key(ls[k])
                        == path_key_chars()),
                Some(pv) => {
                    &&& 1 <= path_idx < i
                    &&& line_has_eq(ls[path_idx]) && line_key(ls[path_idx]) == path_key_chars()
                    &&& forall|k: int|
                        1 <= k < path_idx ==> !(line_has_eq(#[trigger] ls[k]) && line_key(ls[k])
                            == path_key_chars())
                    &&& pv.0 <= pv.1 <= content@.len()
                    &&& content@.subrange(pv.0 as int, pv.1 as int) == line_value(ls[path_idx])
                },
            },
            match date_val {
                None => forall|k: int|
                    1 <= k < i ==> !(line_has_eq(#[trigger] ls[k]) && line_key(ls[k])
                        == date_key_chars()),
                Some(dv) => {
                    &&& 1 <= date_idx < i
                    &&& line_has_eq(ls[date_idx]) && line_key(ls[date_idx]) == date_key_chars()
                    &&& forall|k: int|
                        1 <= k < date_idx ==> !(line_has_eq(#[trigger] ls[k]) && line_key(ls[k])
                            == date_key_chars())
                    &&& dv.0 <= dv.1 <= content@.len()
                    &&& content@.subrange(dv.0 as int, dv.1 as int) == line_value(ls[date_idx])
                },
            },
    {
        let bd = bounds[i];
        let a = bd.0;
        let b = bd.1;
        let ghost l = ls[i as int];
        proof {
            reveal_strlit("Path");
            reveal_strlit("DeletionDate");
            assert(l == content@.subrange(a as int, b as int));
        }
        match find_eq(content, a, b) {
            None => {
                proof {
                    assert(!line_has_eq(l));
                    assert(1 <= i as int && (i as int) < ls.len() && !line_has_eq(ls[i as int]));
                    assert(exists|k: int| 1 <= k < ls.len() && !line_has_eq(#[trigger] ls[k]));
                }
                return Err(TrashError::BadLine);
            },
            Some(e) => {
                proof {
                    assert(line_has_eq(l));
                }
                let ghost eq_off = e - a;
                // the value runs from after the first `=` to the second
                // `=`, or to the end of the line
                if path_val.is_none() && range_matches(content, a, e, "Path") {
                    proof {
                        assert(content@.subrange(a as int, e as int) =~= l.subrange(0, eq_off));
                        assert(line_key(l) == path_key_chars()) by {
                            assert("Path"@ =~= path_key_chars());
                        }
                    }
                    let vend: usize = match find_eq(content, e + 1, b) {
                        Some(e2) => e2,
                        None => b,
                    };
                    proof {
                        let rest = l.skip(eq_off + 1);
                        assert(rest =~= content@.subrange(e + 1, b as int));
                        let j = first_index_of_char(rest, '=');
                        if j >= 0 {
                            assert(content@.subrange(e + 1, e + 1 + j) =~= rest.subrange(0, j));
                        }
                        assert(content@.subrange(e as int + 1, vend as int) == line_value(l));
                    }
                    path_val = Some((e + 1, vend));
                    proof {
                        path_idx = i as int;
                    }
                } else if date_val.is_none() && range_matches(content, a, e, "DeletionDate") {
                    proof {
                        assert(content@.subrange(a as int, e as int) =~= l.subrange(0, eq_off));
                        assert(line_key(l) == date_key_chars()) by {
                            assert("DeletionDate"@ =~= date_key_chars());
                        }
                    }
                    let vend: usize = match find_eq(content, e + 1, b) {
                        Some(e2) => e2,
                        None => b,
                    };
                    proof {
                        let rest = l.skip(eq_off + 1);
                        assert(rest =~= content@.subrange(e + 1, b as int));
                        let j = first_index_of_char(rest, '=');
                        if j >= 0 {
                            assert(content@.subrange(e + 1, e + 1 + j) =~= rest.subrange(0, j));
                        }
                        assert(content@.subrange(e as int + 1, vend as int) == line_value(l));
                    }
                    date_val = Some((e + 1, vend));
                    proof {
                        date_idx = i as int;
                    }
                } else {
                    proof {
                        if path_val is None && line_key(l) == path_key_chars() {
                            assert(content@.subrange(a as int, e as int) =~= l.subrange(
                                0,
                                eq_off,
                            ));
                            assert("Path"@ =~= path_key_chars());
                        }
                        if date_val is None && line_key(l) == date_key_chars() {
                            assert(content@.subrange(a as int, e as int) =~= l.subrange(
                                0,
                                eq_off,
                            ));
                            assert("DeletionDate"@ =~= date_key_chars());
                        }
                    }
                }
            },
        }
    }
    let pv = match path_val {
        None => {
            proof {
                lemma_first_key_idx_none(ls, path_key_chars(), 1);
            }
            return Err(TrashError::NoPathEntry);
        },
        Some(pv) => pv,
    };
    let dv = match date_val {
        None => {
            proof {
                lemma_first_key_idx_found(ls, path_key_chars(), 1, path_idx);
                lemma_first_key_idx_none(ls, date_key_chars(), 1);
            }
            return Err(TrashError::NoDeletionDate);
        },
        Some(dv) => dv,
    };
    proof {
        lemma_first_key_idx_found(ls, path_key_chars(), 1, path_idx);
        lemma_first_key_idx_found(ls, date_key_chars(), 1, date_idx);
    }
    let path_str = content.substring_char(pv.0, pv.1);
    let decoded = percent::percent_decode_str(path_str);
    let path = if paths::is_absolute(&decoded) {
        decoded
    } else {
        paths::join(dev_root, &decoded)
    };
    let date_str = content.substring_char(dv.0, dv.1);
    match parse_timestamp(date_str) {
        None => Err(TrashError::BadTimestamp),
        Some(ts) => {
            let stem_ext = paths::split_name(name);
            let info = Trashinfo {
                trash_filename: stem_ext.0,
                trash_filename_trashinfo: name.clone(),
                deleted_at: ts,
                original_filepath: path,
            };
            Ok(info)
        },
    }
}

/// Folding lines over a newline-free piece only grows the current line.
proof fn lemma_lines_fold_no_nl(s: Seq<char>, rest: Seq<char>, acc: Seq<Seq<char>>, cur: Seq<char>)
    requires
        forall|i: int| 0 <= i < s.len() ==> #[trigger] s[i] != '\n',
    ensures
        lines_fold(s + rest, acc, cur) == lines_fold(rest, acc, cur + s),
    decreases s.len(),
{
    if s.len() == 0 {
        assert(s + rest =~= rest);
        assert(cur + s =~= cur);
    } else {
        assert((s + rest)[0] == s[0]);
        assert((s + rest).skip(1) =~= s.skip(1) + rest);
        assert(forall|i: int| 0 <= i < s.skip(1).len() ==> #[trigger] s.skip(1)[i] != '\n') by {
            assert forall|i: int| 0 <= i < s.skip(1).len() implies #[trigger] s.skip(1)[i]
                != '\n' by {
                assert(s.skip(1)[i] == s[i + 1]);
            }
        }
        lemma_lines_fold_no_nl(s.skip(1), rest, acc, cur.push(s[0]));
        assert(cur.push(s[0]) + s.skip(1) =~= cur + s);
    }
}

/// A `key=value` line with no further `=` in key or value has that key
/// and that value.
proof fn lemma_kv_line(key: Seq<char>, val: Seq<char>)
    requires
        forall|i: int| 0 <= i < key.len() ==> #[trigger] key[i] != '=',
        forall|i: int| 0 <= i < val.len() ==> #[trigger] val[i] != '=',
    ensures
        line_has_eq(key + seq!['='] + val),
        line_key(key + seq!['='] + val) == key,
        line_value(key + seq!['='] + val) == val,
{
    let l = key + seq!['='] + val;
    lemma_first_index_of_char(l, '=');
    let fi = first_index_of_char(l, '=');
    assert(l[key.len() as int] == '=');
    assert(fi >= 0);
    if fi < key.len() {
        assert(l[fi] == key[fi]);
        assert(false);
    }
    if fi > key.len() {
        assert(l[key.len() as int] != '=');
        assert(false);
    }
    assert(fi == key.len());
    assert(line_key(l) =~= key);
    let rest = l.skip(fi + 1);
    assert(rest =~= val);
    lemma_first_index_of_char(rest, '=');
    let j = first_index_of_char(rest, '=');
    if j >= 0 {
        assert(rest[j] == val[j]);
        assert(false);
    }
    assert(line_value(l) == val);
}

/// The serialised metadata text splits into exactly the header line,
/// the `Path` line, and the `DeletionDate` line.
proof fn lemma_serialize_lines(path: Seq<u8>, t: Timestamp)
    ensures
        lines_spec(serialize_spec(path, t)) =~= seq![
            header_chars(),
            path_key_chars() + seq!['='] + percent::percent_encode(path),
            date_key_chars() + seq!['='] + format_ts_spec(t),
        ],
{
    let h = header_chars();
    let e = percent::percent_encode(path);
    let ts = format_ts_spec(t);
    let l2 = path_key_chars() + seq!['='] + e;
    let l3 = date_key_chars() + seq!['='] + ts;
    let content = serialize_spec(path, t);
    percent::lemma_percent_encode_no_meta(path);
    crate::timestamp::lemma_format_ts_no_meta(t);
    assert(content =~= h + (seq!['\n'] + (l2 + (seq!['\n'] + l3))));
    assert(forall|i: int| 0 <= i < h.len() ==> #[trigger] h[i] != '\n');
    lemma_lines_fold_no_nl(
        h,
        seq!['\n'] + (l2 + (seq!['\n'] + l3)),
        Seq::empty(),
        Seq::empty(),
    );
    assert(Seq::<char>::empty() + h =~= h);
    // the first newline closes the header line
    let r1 = l2 + (seq!['\n'] + l3);
    assert((seq!['\n'] + r1)[0] == '\n');
    assert((seq!['\n'] + r1).skip(1) =~= r1);
    assert(strip_cr(h) =~= h);
    assert(lines_fold(seq!['\n'] + r1, Seq::empty(), h) == lines_fold(
        r1,
        seq![h],
        Seq::empty(),
    ));
    // the Path line is newline-free
    assert(forall|i: int| 0 <= i < l2.len() ==> #[trigger] l2[i] != '\n') by {
        assert forall|i: int| 0 <= i < l2.len() implies #[trigger] l2[i] != '\n' by {
            if i >= path_key_chars().len() + 1 {
                assert(l2[i] == e[i - path_key_chars().len() - 1]);
            }
        }
    }
    lemma_lines_fold_no_nl(l2, seq!['\n'] + l3, seq![h], Seq::empty());
    assert(Seq::<char>::empty() + l2 =~= l2);
    // the second newline closes the Path line
    assert((seq!['\n'] + l3)[0] == '\n');
    assert((seq!['\n'] + l3).skip(1) =~= l3);
    assert(strip_cr(l2) =~= l2) by {
        if l2.len() > 0 && l2[l2.len() - 1] == '\r' {
            if l2.len() - 1 >= path_key_chars().len() + 1 {
                assert(l2[l2.len() - 1] == e[l2.len() - 1 - path_key_chars().len() - 1]);
            }
            assert(false);
        }
    }
    assert(seq![h].push(strip_cr(l2)) =~= seq![h, l2]);
    assert(lines_fold(seq!['\n'] + l3, seq![h], l2) == lines_fold(
        l3,
        seq![h, l2],
        Seq::empty(),
    ));
    // the DeletionDate line runs to the end of the text
    assert(forall|i: int| 0 <= i < l3.len() ==> #[trigger] l3[i] != '\n') by {
        assert forall|i: int| 0 <= i < l3.len() implies #[trigger] l3[i] != '\n' by {
            if i >= date_key_chars().len() + 1 {
                assert(l3[i] == ts[i - date_key_chars().len() - 1]);
            }
        }
    }
    lemma_lines_fold_no_nl(l3, Seq::empty(), seq![h, l2], Seq::empty());
    assert(l3 + Seq::<char>::empty() =~= l3);
    assert(Seq::<char>::empty() + l3 =~= l3);
    assert(l3.len() > 0);
    assert(lines_fold(Seq::empty(), seq![h, l2], l3) == seq![h, l2].push(l3));
    assert(seq![h, l2].push(l3) =~= seq![h, l2, l3]);
}

/// Parsing the serialised text for any stored path: the header, the
/// `Path` line and the `DeletionDate` line are read back, the stored
/// bytes decode to themselves, the timestamp parses through the
/// canonical parser, and the names come from the metadata file name.
proof fn lemma_parse_of_serialized(name: Seq<u8>, stored: Seq<u8>, t: Timestamp, dev_root: Seq<
    u8,
>, stem: Seq<u8>)
    requires
        t.wf(),
        stem.len() > 0,
        name == stem + trashinfo_ext_bytes(),
    ensures
        parse_trashinfo_spec(name, serialize_spec(stored, t), dev_root) == Ok::<
            TrashinfoView,
            TrashError,
        >(
            TrashinfoView {
                trash_filename: stem,
                trash_filename_trashinfo: name,
                deleted_at: t,
                original_filepath: if paths::is_absolute_spec(stored) {
                    stored
                } else {
                    paths::join_spec(dev_root, stored)
                },
            },
        ),
{
    let content = serialize_spec(stored, t);
    let e = percent::percent_encode(stored);
    let ts = format_ts_spec(t);
    lemma_serialize_lines(stored, t);
    let ls = lines_spec(content);
    let l2 = path_key_chars() + seq!['='] + e;
    let l3 = date_key_chars() + seq!['='] + ts;
    assert(ls == seq![header_chars(), l2, l3]);
    assert(ls.len() == 3);
    assert(ls[0] == header_chars());
    // both key/value lines carry exactly their key and their value
    percent::lemma_percent_encode_no_meta(stored);
    crate::timestamp::lemma_format_ts_no_meta(t);
    assert(forall|i: int| 0 <= i < path_key_chars().len() ==> #[trigger] path_key_chars()[i]
        != '=');
    assert(forall|i: int| 0 <= i < date_key_chars().len() ==> #[trigger] date_key_chars()[i]
        != '=');
    lemma_kv_line(path_key_chars(), e);
    lemma_kv_line(date_key_chars(), ts);
    assert(!(exists|i: int| 1 <= i < ls.len() && !line_has_eq(#[trigger] ls[i]))) by {
        assert(line_has_eq(ls[1]));
        assert(line_has_eq(ls[2]));
    }
    // the Path line is found at index 1, the DeletionDate line at 2
    lemma_first_key_idx_found(ls, path_key_chars(), 1, 1);
    assert(line_key(ls[1]) != date_key_chars()) by {
        assert(path_key_chars().len() != date_key_chars().len());
    }
    lemma_first_key_idx_found(ls, date_key_chars(), 1, 2);
    // the stored path decodes back to its own bytes
    percent::lemma_percent_encode_ascii(stored);
    percent::lemma_encode_utf8_ascii(e);
    percent::lemma_percent_roundtrip(stored);
    assert(percent::percent_decode_chars(line_value(ls[1])) == stored);
    // the timestamp parses back through the canonical parser
    crate::timestamp::lemma_format_parse_roundtrip(t);
    assert(parse_timestamp_spec(line_value(ls[2])) == Some(t));
    // the names are read back from the metadata file name
    assert(paths::split_name_spec(name).0 == stem) by {
        paths::lemma_last_index_of_byte(name, paths::DOT);
        let li = paths::last_index_of_byte(name, paths::DOT);
        assert(name[stem.len() as int] == 46);
        assert(forall|j: int|
            stem.len() < j < name.len() ==> #[trigger] name[j] == trashinfo_ext_bytes()[j
                - stem.len()]);
        assert(forall|j: int| stem.len() < j < name.len() ==> #[trigger] name[j] != 46);
        if li < stem.len() {
            assert(name[stem.len() as int] != 46);
        }
        if li > stem.len() {
            assert(name[li] != 46);
        }
        assert(li == stem.len());
        assert(name.subrange(0, li) =~= stem);
    }
}

/// Round trip: serialising an entry whose metadata file name is its
/// payload name with the `.trashinfo` extension, then parsing the text
/// under that name, gives the entry back — arbitrary, also non-UTF-8,
/// path bytes included.  The path is stored absolutely, as the home
/// trash stores it.
pub proof fn lemma_serialize_parse_roundtrip(entry: TrashinfoView, dev_root: Seq<u8>)
    requires
        entry.deleted_at.wf(),
        paths::is_absolute_spec(entry.original_filepath),
        entry.trash_filename.len() > 0,
        entry.trash_filename_trashinfo == entry.trash_filename + trashinfo_ext_bytes(),
    ensures
        parse_trashinfo_spec(
            entry.trash_filename_trashinfo,
            serialize_spec(entry.original_filepath, entry.deleted_at),
            dev_root,
        ) == Ok::<TrashinfoView, TrashError>(entry),
{
    lemma_parse_of_serialized(
        entry.trash_filename_trashinfo,
        entry.original_filepath,
        entry.deleted_at,
        dev_root,
        entry.trash_filename,
    );
}

/// A nonempty relative remainder of a prefix strip joins back to the
/// original path.
proof fn lemma_join_strip_prefix(p: Seq<u8>, base: Seq<u8>)
    requires
        paths::strip_prefix_spec(p, base) is Some,
        paths::strip_prefix_spec(p, base).unwrap().len() > 0,
        !paths::is_absolute_spec(paths::strip_prefix_spec(p, base).unwrap()),
        base.len() > 0,
    ensures
        paths::join_spec(base, paths::strip_prefix_spec(p, base).unwrap()) == p,
{
    let rel = paths::strip_prefix_spec(p, base).unwrap();
    if p == base {
        assert(rel.len() == 0);
    } else if base[base.len() - 1] == paths::sep() {
        assert(rel == p.skip(base.len() as int));
        assert(paths::join_spec(base, rel) =~= p);
    } else {
        assert(rel == p.skip(base.len() + 1int));
        assert(p[base.len() as int] == paths::sep());
        assert(paths::join_spec(base, rel) =~= p);
    }
}

/// Round trip through relative storage: an entry whose original path
/// lies under the trash's mount point serialises with the path stored
/// relative to that mount point, and parsing the text against the same
/// mount point gives the entry back.
pub proof fn lemma_relative_serialize_parse_roundtrip(entry: TrashinfoView, dev_root: Seq<u8>)
    requires
        entry.deleted_at.wf(),
        entry.trash_filename.len() > 0,
        entry.trash_filename_trashinfo == entry.trash_filename + trashinfo_ext_bytes(),
        dev_root.len() > 0,
        paths::strip_prefix_spec(entry.original_filepath, dev_root) is Some,
        paths::strip_prefix_spec(entry.original_filepath, dev_root).unwrap().len() > 0,
        !paths::is_absolute_spec(
            paths::strip_prefix_spec(entry.original_filepath, dev_root).unwrap(),
        ),
    ensures
        parse_trashinfo_spec(
            entry.trash_filename_trashinfo,
            serialize_spec(
                paths::strip_prefix_spec(entry.original_filepath, dev_root).unwrap(),
                entry.deleted_at,
            ),
            dev_root,
        ) == Ok::<TrashinfoView, TrashError>(entry),
{
    let rel = paths::strip_prefix_spec(entry.original_filepath, dev_root).unwrap();
    lemma_parse_of_serialized(
        entry.trash_filename_trashinfo,
        rel,
        entry.deleted_at,
        dev_root,
        entry.trash_filename,
    );
    lemma_join_strip_prefix(entry.original_filepath, dev_root);
}

} // verus!

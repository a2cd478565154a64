//! Byte-level path handling.
//!
//! On POSIX systems a path is an arbitrary byte sequence; it need not be
//! valid UTF-8.  The whole library therefore models a path as a `Vec<u8>`
//! and performs every lexical operation (absolute test, joining, file
//! names, extensions) directly on the bytes.

use vstd::prelude::*;

verus! {

/// The path separator byte, `/`.
pub const SEP: u8 = 47;

/// The `.` byte, which separates a file name's stem from its extension.
pub const DOT: u8 = 46;

/// The path separator as a spec value.
pub open spec fn sep() -> u8 {
    SEP
}

/// A path is absolute when it starts with `/`.
pub open spec fn is_absolute_spec(p: Seq<u8>) -> bool {
    p.len() > 0 && p[0] == sep()
}

/// Whether `p` begins with the `/` separator.
pub fn is_absolute(p: &Vec<u8>) -> (r: bool)
    ensures
        r == is_absolute_spec(p@),
{
    p.len() > 0 && p[0] == SEP
}

/// Byte-wise equality of two byte strings.
pub fn bytes_eq(a: &[u8], b: &[u8]) -> (r: bool)
    ensures
        r == (a@ == b@),
{
    if a.len() != b.len() {
        assert(a@.len() != b@.len());
        return false;
    }
    let n = a.len();
    for i in 0..n
        invariant
            n == a@.len() == b@.len(),
            forall|j: int| 0 <= j < i ==> a@[j] == b@[j],
    {
        if a[i] != b[i] {
            return false;
        }
    }
    assert(a@ =~= b@);
    true
}

/// `a` begins with the bytes of `b`.
pub open spec fn starts_with_spec(a: Seq<u8>, b: Seq<u8>) -> bool {
    a.len() >= b.len() && a.subrange(0, b.len() as int) == b
}

/// Whether `a` begins with the bytes of `b`.
pub fn starts_with(a: &Vec<u8>, b: &Vec<u8>) -> (r: bool)
    ensures
        r == starts_with_spec(a@, b@),
{
    if a.len() < b.len() {
        return false;
    }
    let n = b.len();
    for i in 0..n
        invariant
            n == b@.len() <= a@.len(),
            forall|j: int| 0 <= j < i ==> a@[j] == b@[j],
    {
        if a[i] != b[i] {
            assert(a@.subrange(0, b@.len() as int)[i as int] != b@[i as int]);
            return false;
        }
    }
    assert(a@.subrange(0, b@.len() as int) =~= b@);
    true
}

/// Index of the last occurrence of `b` in `s`, or `-1` when absent.
pub open spec fn last_index_of_byte(s: Seq<u8>, b: u8) -> int
    decreases s.len(),
{
    if s.len() == 0 {
        -1
    } else if s[s.len() - 1] == b {
        s.len() - 1
    } else {
        last_index_of_byte(s.drop_last(), b)
    }
}

pub proof fn lemma_last_index_of_byte(s: Seq<u8>, b: u8)
    ensures
        -1 <= last_index_of_byte(s, b) < s.len(),
        last_index_of_byte(s, b) >= 0 ==> s[last_index_of_byte(s, b)] == b,
        forall|j: int| last_index_of_byte(s, b) < j < s.len() ==> s[j] != b,
    decreases s.len(),
{
    if s.len() == 0 {
    } else if s[s.len() - 1] == b {
    } else {
        lemma_last_index_of_byte(s.drop_last(), b);
        assert forall|j: int| last_index_of_byte(s, b) < j < s.len() implies s[j] != b by {
            if j < s.len() - 1 {
                assert(s.drop_last()[j] == s[j]);
            }
        }
    }
}

/// Index of the first occurrence of `b` in `s`, or `-1` when absent.
pub open spec fn first_index_of_byte(s: Seq<u8>, b: u8) -> int
    decreases s.len(),
{
    if s.len() == 0 {
        -1
    } else if s[0] == b {
        0
    } else if first_index_of_byte(s.skip(1), b) < 0 {
        -1
    } else {
        first_index_of_byte(s.skip(1), b) + 1
    }
}

pub proof fn lemma_first_index_of_byte(s: Seq<u8>, b: u8)
    ensures
        -1 <= first_index_of_byte(s, b) < s.len(),
        first_index_of_byte(s, b) >= 0 ==> s[first_index_of_byte(s, b)] == b,
        forall|j: int| 0 <= j < first_index_of_byte(s, b) ==> s[j] != b,
        first_index_of_byte(s, b) == -1 ==> forall|j: int| 0 <= j < s.len() ==> s[j] != b,
    decreases s.len(),
{
    if s.len() == 0 {
    } else if s[0] == b {
    } else {
        lemma_first_index_of_byte(s.skip(1), b);
        assert forall|j: int| 0 <= j < first_index_of_byte(s, b) implies s[j] != b by {
            if j >= 1 {
                assert(s.skip(1)[j - 1] == s[j]);
            }
        }
        if first_index_of_byte(s, b) == -1 {
            assert forall|j: int| 0 <= j < s.len() implies s[j] != b by {
                if j >= 1 {
                    assert(s.skip(1)[j - 1] == s[j]);
                }
            }
        }
    }
}

/// Position just after the last occurrence of `b`, found by a backward scan.
fn find_last_byte(p: &Vec<u8>, b: u8) -> (r: Option<usize>)
    ensures
        match r {
            Some(i) => i < p@.len() && i == last_index_of_byte(p@, b),
            None => last_index_of_byte(p@, b) == -1,
        },
{
    let mut i = p.len();
    while i > 0
        invariant
            i <= p@.len(),
            forall|j: int| i <= j < p@.len() ==> p@[j] != b,
        decreases i,
    {
        i = i - 1;
        if p[i] == b {
            proof {
                lemma_last_index_of_byte(p@, b);
                let li = last_index_of_byte(p@, b);
                if li < i as int {
                    assert(p@[i as int] != b);
                }
                if li > i as int {
                    assert(p@[li] != b);
                }
            }
            return Some(i);
        }
    }
    proof {
        lemma_last_index_of_byte(p@, b);
        let li = last_index_of_byte(p@, b);
        if li >= 0 {
            assert(p@[li] != b);
        }
    }
    None
}

/// Position of the first occurrence of `b`, found by a forward scan.
pub fn find_first_byte(p: &Vec<u8>, b: u8) -> (r: Option<usize>)
    ensures
        match r {
            Some(i) => i == first_index_of_byte(p@, b),
            None => first_index_of_byte(p@, b) == -1,
        },
{
    let n = p.len();
    for i in 0..n
        invariant
            n == p@.len(),
            forall|j: int| 0 <= j < i ==> p@[j] != b,
    {
        if p[i] == b {
            proof {
                lemma_first_index_of_byte(p@, b);
                let fi = first_index_of_byte(p@, b);
                if fi > i as int {
                    assert(p@[i as int] != b);
                }
                if fi < i as int {
                    assert(p@[fi] != b);
                }
            }
            return Some(i);
        }
    }
    proof {
        lemma_first_index_of_byte(p@, b);
        let fi = first_index_of_byte(p@, b);
        if fi >= 0 {
            assert(p@[fi] != b);
        }
    }
    None
}

/// `s` with every trailing `/` removed.
pub open spec fn strip_trailing_seps(s: Seq<u8>) -> Seq<u8>
    decreases s.len(),
{
    if s.len() > 0 && s[s.len() - 1] == sep() {
        strip_trailing_seps(s.drop_last())
    } else {
        s
    }
}

proof fn lemma_strip_trailing_seps_prefix(s: Seq<u8>, e: int)
    requires
        0 <= e <= s.len(),
        e > 0 ==> s[e - 1] != sep(),
        forall|j: int| e <= j < s.len() ==> s[j] == sep(),
    ensures
        strip_trailing_seps(s) == s.subrange(0, e),
    decreases s.len(),
{
    if s.len() == 0 {
        assert(strip_trailing_seps(s) =~= s.subrange(0, e));
    } else if s[s.len() - 1] == sep() {
        assert(e < s.len());
        lemma_strip_trailing_seps_prefix(s.drop_last(), e);
        assert(s.drop_last().subrange(0, e) =~= s.subrange(0, e));
    } else {
        assert(e == s.len());
        assert(strip_trailing_seps(s) =~= s.subrange(0, e));
    }
}

/// The final non-`.`/`..` component of `p`, after trailing separators are
/// dropped: the lexical file name.  `None` for the root, the empty path,
/// and paths ending in a `.` or `..` component.
pub open spec fn file_name_spec(p: Seq<u8>) -> Option<Seq<u8>> {
    let t = strip_trailing_seps(p);
    let name = t.subrange(last_index_of_byte(t, sep()) + 1, t.len() as int);
    if name.len() == 0 || name == seq![DOT] || name == seq![DOT, DOT] {
        None
    } else {
        Some(name)
    }
}

/// Computes the lexical file name of `p` as `file_name_spec` states it.
pub fn file_name(p: &Vec<u8>) -> (r: Option<Vec<u8>>)
    ensures
        r.deep_view() == file_name_spec(p@),
{
    let mut e = p.len();
    while e > 0 && p[e - 1] == SEP
        invariant
            e <= p@.len(),
            forall|j: int| e <= j < p@.len() ==> p@[j] == sep(),
        decreases e,
    {
        e = e - 1;
    }
    proof {
        lemma_strip_trailing_seps_prefix(p@, e as int);
    }
    let trimmed_ghost = Ghost(strip_trailing_seps(p@));
    let mut i = e;
    while i > 0 && p[i - 1] != SEP
        invariant
            i <= e <= p@.len(),
            forall|j: int| i <= j < e ==> p@[j] != sep(),
        decreases i,
    {
        i = i - 1;
    }
    proof {
        let t = trimmed_ghost@;
        lemma_last_index_of_byte(t, sep());
        let li = last_index_of_byte(t, sep());
        if i > 0 {
            assert(t[i - 1] == p@[i - 1]);
            assert(li == i - 1) by {
                if li < i as int - 1 {
                    assert(t[i as int - 1] != sep());
                }
                if li > i as int - 1 {
                    assert(p@[li] != sep());
                }
            }
        } else {
            assert(li == -1) by {
                if li >= 0 {
                    assert(p@[li] != sep());
                }
            }
        }
    }
    let mut name: Vec<u8> = Vec::new();
    let mut k = i;
    while k < e
        invariant
            i <= k <= e <= p@.len(),
            name@ == p@.subrange(i as int, k as int),
        decreases e - k,
    {
        name.push(p[k]);
        assert(name@ =~= p@.subrange(i as int, k + 1));
        k = k + 1;
    }
    proof {
        let t = trimmed_ghost@;
        assert(t.subrange(last_index_of_byte(t, sep()) + 1, t.len() as int) =~= p@.subrange(
            i as int,
            e as int,
        ));
    }
    if name.len() == 0 {
        return None;
    }
    if name.len() == 1 && name[0] == DOT {
        assert(name@ =~= seq![DOT]);
        return None;
    }
    if name.len() == 2 && name[0] == DOT && name[1] == DOT {
        assert(name@ =~= seq![DOT, DOT]);
        return None;
    }
    proof {
        assert(name@ != seq![DOT] && name@ != seq![DOT, DOT]) by {
            if name@ == seq![DOT] {
                assert(name@.len() == 1 && name@[0] == DOT);
            }
            if name@ == seq![DOT, DOT] {
                assert(name@.len() == 2 && name@[0] == DOT && name@[1] == DOT);
            }
        }
    }
    Some(name)
}

/// `base` joined with `rel`: `rel` itself when absolute, otherwise
/// `base`, a separator where one is missing, then `rel`.
pub open spec fn join_spec(base: Seq<u8>, rel: Seq<u8>) -> Seq<u8> {
    if is_absolute_spec(rel) {
        rel
    } else if base.len() == 0 {
        rel
    } else if base[base.len() - 1] == sep() {
        base + rel
    } else {
        base + seq![sep()] + rel
    }
}

/// Joins two byte paths as `join_spec` states it.
pub fn join(base: &Vec<u8>, rel: &Vec<u8>) -> (r: Vec<u8>)
    ensures
        r@ == join_spec(base@, rel@),
{
    if rel.len() > 0 && rel[0] == SEP {
        return rel.clone();
    }
    if base.len() == 0 {
        return rel.clone();
    }
    let mut r = base.clone();
    if base[base.len() - 1] != SEP {
        r.push(SEP);
    }
    let n = rel.len();
    let base_part = Ghost(r@);
    for i in 0..n
        invariant
            n == rel@.len(),
            r@ == base_part@ + rel@.subrange(0, i as int),
    {
        r.push(rel[i]);
        assert(r@ =~= base_part@ + rel@.subrange(0, i + 1));
    }
    proof {
        assert(rel@.subrange(0, rel@.len() as int) =~= rel@);
        if base@[base@.len() - 1] == sep() {
            assert(r@ =~= base@ + rel@);
        } else {
            assert(r@ =~= base@ + seq![sep()] + rel@);
        }
    }
    r
}

/// Splits a file name into its stem and extension: the extension is what
/// follows the last `.`, unless that `.` is the leading byte.
pub open spec fn split_name_spec(name: Seq<u8>) -> (Seq<u8>, Option<Seq<u8>>) {
    let i = last_index_of_byte(name, DOT);
    if i <= 0 {
        (name, None)
    } else {
        (name.subrange(0, i), Some(name.subrange(i + 1, name.len() as int)))
    }
}

/// Splits a file name into stem and extension as `split_name_spec` states it.
pub fn split_name(name: &Vec<u8>) -> (r: (Vec<u8>, Option<Vec<u8>>))
    ensures
        r.0@ == split_name_spec(name@).0,
        r.1.deep_view() == split_name_spec(name@).1,
{
    let found = find_last_byte(name, DOT);
    match found {
        None => (name.clone(), None),
        Some(i) => {
            if i == 0 {
                (name.clone(), None)
            } else {
                let mut stem: Vec<u8> = Vec::new();
                for k in 0..i
                    invariant
                        i < name@.len(),
                        stem@ == name@.subrange(0, k as int),
                    {
                    stem.push(name[k]);
                    assert(stem@ =~= name@.subrange(0, k + 1));
                }
                let mut ext: Vec<u8> = Vec::new();
                let n = name.len();
                for k in (i + 1)..n
                    invariant
                        i < n == name@.len(),
                        ext@ == name@.subrange(i + 1, k as int),
                    {
                    ext.push(name[k]);
                    assert(ext@ =~= name@.subrange(i + 1, k + 1));
                }
                (stem, Some(ext))
            }
        },
    }
}

/// `p` relative to `base`: the bytes of `p` after `base` and the
/// separator between them, `None` when `base` is no lexical prefix.
pub open spec fn strip_prefix_spec(p: Seq<u8>, base: Seq<u8>) -> Option<Seq<u8>> {
    if base.len() == 0 {
        Some(p)
    } else if p == base {
        Some(Seq::empty())
    } else if !starts_with_spec(p, base) {
        None
    } else if base[base.len() - 1] == sep() {
        Some(p.skip(base.len() as int))
    } else if p.len() > base.len() && p[base.len() as int] == sep() {
        Some(p.skip(base.len() + 1int))
    } else {
        None
    }
}

/// Strips `base` from the front of `p` as `strip_prefix_spec` states it.
pub fn strip_prefix(p: &Vec<u8>, base: &Vec<u8>) -> (r: Option<Vec<u8>>)
    ensures
        r.deep_view() == strip_prefix_spec(p@, base@),
{
    if base.len() == 0 {
        return Some(p.clone());
    }
    if bytes_eq(p.as_slice(), base.as_slice()) {
        return Some(Vec::new());
    }
    if !starts_with(p, base) {
        return None;
    }
    let start: usize = if base[base.len() - 1] == SEP {
        base.len()
    } else if p.len() > base.len() && p[base.len()] == SEP {
        base.len() + 1
    } else {
        return None;
    };
    let mut rest: Vec<u8> = Vec::new();
    let n = p.len();
    for k in start..n
        invariant
            start <= n == p@.len(),
            rest@ == p@.subrange(start as int, k as int),
    {
        rest.push(p[k]);
        assert(rest@ =~= p@.subrange(start as int, k + 1));
    }
    proof {
        assert(p@.subrange(start as int, p@.len() as int) =~= p@.skip(start as int));
    }
    Some(rest)
}

/// The `/`-separated components of `s`, empty segments dropped, collected
/// left to right onto `acc` with `cur` the partial component read so far.
pub open spec fn components_fold(s: Seq<u8>, acc: Seq<Seq<u8>>, cur: Seq<u8>) -> Seq<Seq<u8>>
    decreases s.len(),
{
    if s.len() == 0 {
        if cur.len() > 0 {
            acc.push(cur)
        } else {
            acc
        }
    } else if s[0] == sep() {
        components_fold(s.skip(1), if cur.len() > 0 { acc.push(cur) } else { acc }, Seq::empty())
    } else {
        components_fold(s.skip(1), acc, cur.push(s[0]))
    }
}

/// The `/`-separated components of `s`, empty segments dropped.
pub open spec fn components_of(s: Seq<u8>) -> Seq<Seq<u8>> {
    components_fold(s, Seq::empty(), Seq::empty())
}

/// Splits `p` into components as `components_of` states it.
pub fn components(p: &Vec<u8>) -> (r: Vec<Vec<u8>>)
    ensures
        r.deep_view() == components_of(p@),
{
    let mut acc: Vec<Vec<u8>> = Vec::new();
    let mut cur: Vec<u8> = Vec::new();
    proof {
        assert(p@.skip(0) =~= p@);
        assert(acc.deep_view() =~~= Seq::<Seq<u8>>::empty());
        assert(cur@ =~= Seq::<u8>::empty());
    }
    let n = p.len();
    for i in 0..n
        invariant
            n == p@.len(),
            components_fold(p@.skip(i as int), acc.deep_view(), cur@) == components_of(p@),
    {
        let ghost pre_acc = acc.deep_view();
        let ghost pre_cur = cur@;
        proof {
            assert(p@.skip(i as int).skip(1) =~= p@.skip(i + 1));
            assert(p@.skip(i as int)[0] == p@[i as int]);
        }
        if p[i] == SEP {
            if cur.len() > 0 {
                acc.push(cur);
                cur = Vec::new();
                proof {
                    assert(acc.deep_view() =~~= pre_acc.push(pre_cur));
                    assert(cur@ =~= Seq::<u8>::empty());
                    assert(components_fold(p@.skip(i as int), pre_acc, pre_cur)
                        == components_fold(p@.skip(i as int + 1), acc.deep_view(), cur@));
                }
            } else {
                proof {
                    assert(cur@ =~= Seq::<u8>::empty());
                    assert(components_fold(p@.skip(i as int), pre_acc, pre_cur)
                        == components_fold(p@.skip(i as int + 1), acc.deep_view(), cur@));
                }
            }
        } else {
            cur.push(p[i]);
            proof {
                assert(cur@ =~= pre_cur.push(p@[i as int]));
                assert(components_fold(p@.skip(i as int), pre_acc, pre_cur)
                    == components_fold(p@.skip(i as int + 1), acc.deep_view(), cur@));
            }
        }
    }
    proof {
        assert(p@.skip(n as int) =~= Seq::<u8>::empty());
    }
    if cur.len() > 0 {
        let ghost pre_acc = acc.deep_view();
        let ghost pre_cur = cur@;
        acc.push(cur);
        proof {
            assert(acc.deep_view() =~~= pre_acc.push(pre_cur));
        }
    }
    acc
}

/// An absolute path in canonical lexical form: it starts with `/`, does
/// not end with `/` unless it is the root, and holds no empty component.
pub open spec fn canonical_abs_spec(p: Seq<u8>) -> bool {
    &&& is_absolute_spec(p)
    &&& (p.len() == 1 || p[p.len() - 1] != sep())
    &&& forall|i: int| 1 <= i < p.len() ==> !(#[trigger] p[i] == sep() && p[i - 1] == sep())
}

/// The parent of a canonical absolute path; the root is its own parent.
pub open spec fn lex_pop(acc: Seq<u8>) -> Seq<u8> {
    let i = last_index_of_byte(acc, sep());
    if i <= 0 {
        acc.subrange(
            0,
            if acc.len() > 0 && acc[0] == sep() {
                1int
            } else {
                0int
            },
        )
    } else {
        acc.subrange(0, i)
    }
}

/// One step of lexical normalization: `.` is dropped, `..` pops the
/// accumulated path, and any other component is appended.
pub open spec fn lex_step(acc: Seq<u8>, comp: Seq<u8>) -> Seq<u8> {
    if comp == seq![DOT] {
        acc
    } else if comp == seq![DOT, DOT] {
        lex_pop(acc)
    } else {
        join_spec(acc, comp)
    }
}

/// The lexical absolute form of `p` under working directory `cwd`:
/// components are folded left to right with `lex_step`, starting from the
/// root when `p` is absolute and from `cwd` otherwise.  No symlink is
/// followed and the filesystem is never consulted.
pub open spec fn lexical_absolute_spec(p: Seq<u8>, cwd: Seq<u8>) -> Seq<u8> {
    let init = if is_absolute_spec(p) {
        seq![sep()]
    } else {
        cwd
    };
    components_of(p).fold_left(init, |acc: Seq<u8>, c: Seq<u8>| lex_step(acc, c))
}

/// Removes the last component of `acc` as `lex_pop` states it.
fn pop_path(acc: &Vec<u8>) -> (r: Vec<u8>)
    ensures
        r@ == lex_pop(acc@),
{
    let found = find_last_byte(acc, SEP);
    let cut: usize = match found {
        Some(i) => {
            if i == 0 {
                if acc.len() > 0 && acc[0] == SEP {
                    1
                } else {
                    0
                }
            } else {
                i
            }
        },
        None => {
            if acc.len() > 0 && acc[0] == SEP {
                1
            } else {
                0
            }
        },
    };
    proof {
        lemma_last_index_of_byte(acc@, sep());
    }
    let mut r: Vec<u8> = Vec::new();
    for k in 0..cut
        invariant
            cut <= acc@.len(),
            r@ == acc@.subrange(0, k as int),
    {
        r.push(acc[k]);
        assert(r@ =~= acc@.subrange(0, k + 1));
    }
    r
}

/// Computes the lexical absolute form of `p` as `lexical_absolute_spec`
/// states it.
pub fn lexical_absolute(p: &Vec<u8>, cwd: &Vec<u8>) -> (r: Vec<u8>)
    ensures
        r@ == lexical_absolute_spec(p@, cwd@),
{
    let comps = components(p);
    let mut acc: Vec<u8> = if p.len() > 0 && p[0] == SEP {
        let mut root: Vec<u8> = Vec::new();
        root.push(SEP);
        assert(root@ =~= seq![sep()]);
        root
    } else {
        cwd.clone()
    };
    let init = Ghost(acc@);
    let n = comps.len();
    for i in 0..n
        invariant
            n == comps.deep_view().len(),
            acc@ == comps.deep_view().take(i as int).fold_left(
                init@,
                |a: Seq<u8>, c: Seq<u8>| lex_step(a, c),
            ),
            lexical_absolute_spec(p@, cwd@) == comps.deep_view().fold_left(
                init@,
                |a: Seq<u8>, c: Seq<u8>| lex_step(a, c),
            ),
    {
        let comp = &comps[i];
        let next: Vec<u8> = if comp.len() == 1 && comp[0] == DOT {
            assert(comp@ =~= seq![DOT]);
            let keep = acc;
            keep
        } else if comp.len() == 2 && comp[0] == DOT && comp[1] == DOT {
            assert(comp@ =~= seq![DOT, DOT]);
            pop_path(&acc)
        } else {
            proof {
                if comp@ == seq![DOT] {
                    assert(comp@.len() == 1 && comp@[0] == DOT);
                }
                if comp@ == seq![DOT, DOT] {
                    assert(comp@.len() == 2 && comp@[0] == DOT && comp@[1] == DOT);
                }
            }
            join(&acc, comp)
        };
        acc = next;
        proof {
            let f = |a: Seq<u8>, c: Seq<u8>| lex_step(a, c);
            let cs = comps.deep_view();
            assert(cs.take(i + 1).drop_last() =~= cs.take(i as int));
            assert(cs.take(i + 1).last() == cs[i as int]);
            assert(comps[i as int]@ == cs[i as int]);
        }
    }
    proof {
        assert(comps.deep_view().take(n as int) =~= comps.deep_view());
    }
    acc
}

/// Normalizing from an absolute starting point yields an absolute path.
pub proof fn lemma_lex_fold_absolute(comps: Seq<Seq<u8>>, init: Seq<u8>)
    requires
        is_absolute_spec(init),
    ensures
        is_absolute_spec(comps.fold_left(init, |a: Seq<u8>, c: Seq<u8>| lex_step(a, c))),
    decreases comps.len(),
{
    let f = |a: Seq<u8>, c: Seq<u8>| lex_step(a, c);
    if comps.len() == 0 {
    } else {
        lemma_lex_fold_absolute(comps.drop_last(), init);
        let acc = comps.drop_last().fold_left(init, f);
        let comp = comps.last();
        if comp == seq![DOT] {
        } else if comp == seq![DOT, DOT] {
            lemma_last_index_of_byte(acc, sep());
            let i = last_index_of_byte(acc, sep());
            if i < 0 {
                assert(acc[0] != sep());
            }
            if i == 0 {
                assert(lex_pop(acc)[0] == acc[0]);
            } else {
                assert(lex_pop(acc)[0] == acc[0]);
            }
        } else {
            if is_absolute_spec(comp) {
            } else {
                assert(join_spec(acc, comp)[0] == acc[0]);
            }
        }
    }
}

/// The lexical absolute form of a path is absolute whenever the
/// starting point is.
pub proof fn lemma_lexical_absolute_absolute(p: Seq<u8>, cwd: Seq<u8>)
    requires
        is_absolute_spec(cwd) || is_absolute_spec(p),
    ensures
        is_absolute_spec(lexical_absolute_spec(p, cwd)),
{
    if is_absolute_spec(p) {
        lemma_lex_fold_absolute(components_of(p), seq![sep()]);
    } else {
        lemma_lex_fold_absolute(components_of(p), cwd);
    }
}

/// A canonical absolute path, its parent, and so on up to the root.
pub open spec fn ancestors_spec(p: Seq<u8>) -> Seq<Seq<u8>>
    decreases p.len(),
{
    if p.len() <= 1 {
        seq![p]
    } else if lex_pop(p).len() < p.len() {
        seq![p] + ancestors_spec(lex_pop(p))
    } else {
        seq![p]
    }
}

/// Popping a canonical absolute path other than the root gives a
/// shorter canonical absolute path.
pub proof fn lemma_lex_pop_canonical(p: Seq<u8>)
    requires
        canonical_abs_spec(p),
        p.len() > 1,
    ensures
        canonical_abs_spec(lex_pop(p)),
        lex_pop(p).len() < p.len(),
{
    lemma_last_index_of_byte(p, sep());
    let i = last_index_of_byte(p, sep());
    if i < 0 {
        assert(p[0] != sep());
    }
    if i == 0 {
        assert(lex_pop(p) =~= seq![sep()]);
    } else {
        assert(p[i] == sep());
        assert(p[i - 1] != sep());
        assert(i < p.len() - 1 || p[p.len() - 1] == sep());
        assert(lex_pop(p) == p.subrange(0, i));
        assert(lex_pop(p)[0] == p[0]);
    }
}

/// Lists a canonical absolute path and its ancestors, deepest first, as
/// `ancestors_spec` states it.
pub fn ancestors(p: &Vec<u8>) -> (r: Vec<Vec<u8>>)
    requires
        canonical_abs_spec(p@),
    ensures
        r.deep_view() == ancestors_spec(p@),
        r.len() >= 1,
{
    let mut r: Vec<Vec<u8>> = Vec::new();
    r.push(p.clone());
    let mut cur: Vec<u8> = p.clone();
    proof {
        assert(r.deep_view() =~~= seq![p@]);
        assert(r.deep_view().drop_last() + ancestors_spec(cur@) =~= ancestors_spec(p@));
    }
    while cur.len() > 1
        invariant
            canonical_abs_spec(cur@),
            r.deep_view().len() >= 1,
            r.deep_view().last() == cur@,
            r.deep_view().drop_last() + ancestors_spec(cur@) == ancestors_spec(p@),
        decreases cur@.len(),
    {
        let ghost pre = r.deep_view();
        proof {
            lemma_lex_pop_canonical(cur@);
        }
        let next = pop_path(&cur);
        r.push(next.clone());
        proof {
            assert(r.deep_view() =~~= pre.push(next@));
            assert(ancestors_spec(cur@) == seq![cur@] + ancestors_spec(next@));
            assert(pre.push(next@).drop_last() =~= pre);
            assert(pre.drop_last() + (seq![cur@] + ancestors_spec(next@)) =~= (pre.drop_last()
                + seq![cur@]) + ancestors_spec(next@));
            assert(pre.drop_last() + seq![cur@] =~= pre);
        }
        cur = next;
    }
    proof {
        assert(ancestors_spec(cur@) =~= seq![cur@]);
        assert(r.deep_view().drop_last() + seq![cur@] =~= r.deep_view());
    }
    r
}

/// How many leading entries of `devs` equal `d`.
pub open spec fn matching_prefix_len(devs: Seq<u64>, d: u64) -> int
    decreases devs.len(),
{
    if devs.len() == 0 {
        0
    } else if devs[0] != d {
        0
    } else {
        1 + matching_prefix_len(devs.skip(1), d)
    }
}

pub proof fn lemma_matching_prefix_len(devs: Seq<u64>, d: u64)
    ensures
        0 <= matching_prefix_len(devs, d) <= devs.len(),
        forall|j: int| 0 <= j < matching_prefix_len(devs, d) ==> devs[j] == d,
        matching_prefix_len(devs, d) < devs.len() ==> devs[matching_prefix_len(devs, d)] != d,
    decreases devs.len(),
{
    if devs.len() == 0 {
    } else if devs[0] != d {
    } else {
        lemma_matching_prefix_len(devs.skip(1), d);
        assert forall|j: int| 0 <= j < matching_prefix_len(devs, d) implies devs[j] == d by {
            if j >= 1 {
                assert(devs.skip(1)[j - 1] == devs[j]);
            }
        }
        if matching_prefix_len(devs, d) < devs.len() {
            assert(devs.skip(1)[matching_prefix_len(devs, d) - 1] == devs[matching_prefix_len(
                devs,
                d,
            )]);
        }
    }
}

/// The filesystem root of a path: given the path's ancestors, deepest
/// first, and the device id observed for each, the shallowest ancestor
/// still on the path's own device — the mount point.
pub fn fs_root_from(ancs: &Vec<Vec<u8>>, devs: &Vec<u64>) -> (r: Vec<u8>)
    requires
        ancs.len() == devs.len(),
        ancs.len() >= 1,
    ensures
        r@ == ancs.deep_view()[matching_prefix_len(devs@, devs@[0]) - 1],
{
    proof {
        lemma_matching_prefix_len(devs@, devs@[0]);
    }
    let d0 = devs[0];
    let mut i: usize = 1;
    while i < devs.len() && devs[i] == d0
        invariant
            1 <= i <= devs@.len(),
            devs@[0] == d0,
            ancs.len() == devs@.len(),
            forall|j: int| 0 <= j < i ==> devs@[j] == d0,
        decreases devs@.len() - i,
    {
        i = i + 1;
    }
    proof {
        lemma_matching_prefix_len(devs@, d0);
        let m = matching_prefix_len(devs@, d0);
        if m < i {
            assert(devs@[m] == d0);
        }
        if m > i {
            assert(i < devs@.len() && devs@[i as int] == d0);
        }
        assert(m == i);
    }
    ancs[i - 1].clone()
}

} // verus!

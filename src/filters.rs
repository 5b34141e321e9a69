//! Inventory filters: the extension allow-list and the per-file admission rule.
//!
//! Extensions are compared as bytes. ASCII lowercasing acts byte by byte on
//! UTF-8, commas and the whitespace that is trimmed are whole characters, so
//! working on the bytes gives what working on the characters would.

use vstd::prelude::*;
use vstd::string::StringSliceAdditionalSpecFns;
use crate::pathname::path_eq;

verus! {

/// The pieces of `s` between commas, as `str::split(',')` gives them: an empty
/// input has one empty piece.
pub open spec fn split_commas(s: Seq<u8>) -> Seq<Seq<u8>>
    decreases s.len(),
{
    if s.len() == 0 {
        seq![Seq::empty()]
    } else {
        let r = split_commas(s.drop_last());
        if s.last() == 0x2c {
            r.push(Seq::empty())
        } else {
            r.update(r.len() - 1, r.last().push(s.last()))
        }
    }
}

/// Length of the UTF-8 encoding of a whitespace character (Unicode
/// `White_Space`) at the start of `p`, or 0.
pub open spec fn lead_space(p: Seq<u8>) -> nat {
    if p.len() >= 1 && (p[0] == 0x20 || (0x09 <= p[0] && p[0] <= 0x0d)) {
        1
    } else if p.len() >= 2 && p[0] == 0xc2 && (p[1] == 0x85 || p[1] == 0xa0) {
        2
    } else if p.len() >= 3 && is_space3(p[0], p[1], p[2]) {
        3
    } else {
        0
    }
}

/// Length of the UTF-8 encoding of a whitespace character at the end of `p`,
/// or 0.
pub open spec fn trail_space(p: Seq<u8>) -> nat {
    let n = p.len() as int;
    if n >= 1 && (p[n - 1] == 0x20 || (0x09 <= p[n - 1] && p[n - 1] <= 0x0d)) {
        1
    } else if n >= 2 && p[n - 2] == 0xc2 && (p[n - 1] == 0x85 || p[n - 1] == 0xa0) {
        2
    } else if n >= 3 && is_space3(p[n - 3], p[n - 2], p[n - 1]) {
        3
    } else {
        0
    }
}

/// The three-byte encodings of whitespace: U+1680, U+2000..U+200A, U+2028,
/// U+2029, U+202F, U+205F, U+3000.
pub open spec fn is_space3(a: u8, b: u8, c: u8) -> bool {
    (a == 0xe1 && b == 0x9a && c == 0x80) || (a == 0xe2 && b == 0x80 && ((0x80 <= c && c <= 0x8a)
        || c == 0xa8 || c == 0xa9 || c == 0xaf)) || (a == 0xe2 && b == 0x81 && c == 0x9f) || (a
        == 0xe3 && b == 0x80 && c == 0x80)
}

/// `p` without leading whitespace.
pub open spec fn trim_start(p: Seq<u8>) -> Seq<u8>
    decreases p.len(),
{
    if lead_space(p) > 0 {
        trim_start(p.skip(lead_space(p) as int))
    } else {
        p
    }
}

/// `p` without trailing whitespace.
pub open spec fn trim_end(p: Seq<u8>) -> Seq<u8>
    decreases p.len(),
{
    if trail_space(p) > 0 {
        trim_end(p.take(p.len() - trail_space(p)))
    } else {
        p
    }
}

/// An ASCII byte in lower case; other bytes unchanged.
pub open spec fn lower_byte(b: u8) -> u8 {
    if 0x41 <= b && b <= 0x5a {
        (b + 0x20) as u8
    } else {
        b
    }
}

/// `p` with ASCII letters in lower case.
pub open spec fn ascii_lower(p: Seq<u8>) -> Seq<u8> {
    p.map_values(|b: u8| lower_byte(b))
}

/// A piece of the list as it is kept: trimmed and in lower case.
pub open spec fn normalized(p: Seq<u8>) -> Seq<u8> {
    ascii_lower(trim_end(trim_start(p)))
}

/// The extensions named by a comma-separated list.
pub open spec fn ext_set_of(s: Seq<u8>) -> Set<Seq<u8>> {
    Set::new(
        |e: Seq<u8>|
            e.len() > 0 && exists|i: int|
                0 <= i < split_commas(s).len() && e == normalized(#[trigger] split_commas(s)[i]),
    )
}

/// A set of lowercase file extensions, without dots.
#[derive(Debug)]
pub struct ExtSet {
    items: Vec<Vec<u8>>,
}

impl View for ExtSet {
    type V = Set<Seq<u8>>;

    closed spec fn view(&self) -> Set<Seq<u8>> {
        Set::new(|e: Seq<u8>| exists|i: int| 0 <= i < self.items.len() && (#[trigger] self.items[i])@ == e)
    }
}

impl ExtSet {
    /// No extension is listed twice.
    #[verifier::type_invariant]
    closed spec fn wf(&self) -> bool {
        forall|i: int, j: int|
            0 <= i < j < self.items.len() ==> (#[trigger] self.items[i])@ != (#[trigger] self.items[j])@
    }

    proof fn lemma_len(&self)
        requires
            self.wf(),
        ensures
            self@.finite(),
            self@.len() == self.items.len(),
        decreases self.items.len(),
    {
        let s = self.items@.map_values(|v: Vec<u8>| v@);
        assert forall|i: int, j: int| 0 <= i < j < s.len() implies s[i] != s[j] by {
            assert(s[i] == self.items[i]@);
            assert(s[j] == self.items[j]@);
        }
        assert(s.no_duplicates());
        s.unique_seq_to_set();
        assert forall|e: Seq<u8>| self@.contains(e) <==> s.to_set().contains(e) by {
            if self@.contains(e) {
                let i = choose|i: int| 0 <= i < self.items.len() && (#[trigger] self.items[i])@ == e;
                assert(s[i] == e);
            }
            if s.to_set().contains(e) {
                let i = choose|i: int| 0 <= i < s.len() && s[i] == e;
                assert(self.items[i]@ == e);
            }
        }
        assert(self@ =~= s.to_set());
    }

    /// Whether `ext` (compared exactly, as bytes) is in the set.
    pub fn contains(&self, ext: &str) -> (r: bool)
        ensures
            r == self@.contains(ext.spec_bytes()),
    {
        let b = ext.as_bytes();
        let mut v: Vec<u8> = Vec::new();
        let mut i: usize = 0;
        while i < b.len()
            invariant
                i <= b@.len(),
                v@ == b@.take(i as int),
            decreases b@.len() - i,
        {
            v.push(b[i]);
            i = i + 1;
            assert(v@ =~= b@.take(i as int));
        }
        assert(b@.take(i as int) =~= b@);
        self.contains_bytes(&v)
    }

    /// Whether the byte string `ext` is in the set.
    pub fn contains_bytes(&self, ext: &Vec<u8>) -> (r: bool)
        ensures
            r == self@.contains(ext@),
    {
        let mut i: usize = 0;
        while i < self.items.len()
            invariant
                i <= self.items.len(),
                forall|k: int| 0 <= k < i ==> (#[trigger] self.items[k])@ != ext@,
            decreases self.items.len() - i,
        {
            if path_eq(&self.items[i], ext) {
                return true;
            }
            i = i + 1;
        }
        false
    }

    /// Number of extensions in the set.
    pub fn len(&self) -> (r: usize)
        ensures
            r == self@.len(),
    {
        proof {
            use_type_invariant(self);
            self.lemma_len();
        }
        self.items.len()
    }

    /// Whether the set is empty.
    pub fn is_empty(&self) -> (r: bool)
        ensures
            r == (self@.len() == 0),
    {
        proof {
            use_type_invariant(self);
            self.lemma_len();
        }
        self.items.len() == 0
    }
}

/// The pieces of `b` between commas.
fn split_on_commas(b: &[u8]) -> (r: Vec<Vec<u8>>)
    ensures
        r@.map_values(|v: Vec<u8>| v@) == split_commas(b@),
{
    let mut done: Vec<Vec<u8>> = Vec::new();
    let mut cur: Vec<u8> = Vec::new();
    let mut i: usize = 0;
    assert(b@.take(0) =~= Seq::<u8>::empty());
    assert(done@.map_values(|v: Vec<u8>| v@).push(cur@) =~= seq![Seq::<u8>::empty()]);
    while i < b.len()
        invariant
            i <= b@.len(),
            split_commas(b@.take(i as int)) == done@.map_values(|v: Vec<u8>| v@).push(cur@),
        decreases b@.len() - i,
    {
        let ghost d = done@.map_values(|v: Vec<u8>| v@);
        let ghost c = cur@;
        assert(b@.take(i + 1).drop_last() =~= b@.take(i as int));
        if b[i] == 0x2c {
            done.push(cur);
            cur = Vec::new();
            assert(done@.map_values(|v: Vec<u8>| v@) =~= d.push(c));
            assert(done@.map_values(|v: Vec<u8>| v@).push(cur@) =~= d.push(c).push(Seq::empty()));
        } else {
            cur.push(b[i]);
            assert(done@.map_values(|v: Vec<u8>| v@).push(cur@) =~= d.push(c).update(
                d.len() as int,
                c.push(b@[i as int]),
            ));
        }
        i = i + 1;
    }
    assert(b@.take(i as int) =~= b@);
    let ghost d = done@.map_values(|v: Vec<u8>| v@);
    let ghost c = cur@;
    done.push(cur);
    assert(done@.map_values(|v: Vec<u8>| v@) =~= d.push(c));
    done
}

fn is_space3_exec(a: u8, b: u8, c: u8) -> (r: bool)
    ensures
        r == is_space3(a, b, c),
{
    (a == 0xe1 && b == 0x9a && c == 0x80) || (a == 0xe2 && b == 0x80 && ((0x80 <= c && c <= 0x8a)
        || c == 0xa8 || c == 0xa9 || c == 0xaf)) || (a == 0xe2 && b == 0x81 && c == 0x9f) || (a
        == 0xe3 && b == 0x80 && c == 0x80)
}

/// Length of the whitespace character that starts at `p[i]`, within `p[..j]`.
fn lead_space_at(p: &Vec<u8>, i: usize, j: usize) -> (r: usize)
    requires
        i <= j <= p.len(),
    ensures
        r == lead_space(p@.subrange(i as int, j as int)),
{
    let ghost q = p@.subrange(i as int, j as int);
    let n = j - i;
    if n >= 1 && (p[i] == 0x20 || (0x09 <= p[i] && p[i] <= 0x0d)) {
        1
    } else if n >= 2 && p[i] == 0xc2 && (p[i + 1] == 0x85 || p[i + 1] == 0xa0) {
        2
    } else if n >= 3 && is_space3_exec(p[i], p[i + 1], p[i + 2]) {
        3
    } else {
        0
    }
}

/// Length of the whitespace character that ends at `p[j - 1]`, within `p[i..]`.
fn trail_space_at(p: &Vec<u8>, i: usize, j: usize) -> (r: usize)
    requires
        i <= j <= p.len(),
    ensures
        r == trail_space(p@.subrange(i as int, j as int)),
{
    let ghost q = p@.subrange(i as int, j as int);
    let n = j - i;
    if n >= 1 && (p[j - 1] == 0x20 || (0x09 <= p[j - 1] && p[j - 1] <= 0x0d)) {
        1
    } else if n >= 2 && p[j - 2] == 0xc2 && (p[j - 1] == 0x85 || p[j - 1] == 0xa0) {
        2
    } else if n >= 3 && is_space3_exec(p[j - 3], p[j - 2], p[j - 1]) {
        3
    } else {
        0
    }
}

/// A piece of the list trimmed of whitespace and in lower case.
fn normalize(p: &Vec<u8>) -> (r: Vec<u8>)
    ensures
        r@ == normalized(p@),
{
    let len = p.len();
    let mut i: usize = 0;
    assert(p@.subrange(0, len as int) =~= p@);
    while lead_space_at(p, i, len) > 0
        invariant
            len == p.len(),
            i <= len,
            trim_start(p@) == trim_start(p@.subrange(i as int, len as int)),
        decreases len - i,
    {
        let w = lead_space_at(p, i, len);
        assert(p@.subrange(i as int, len as int).skip(w as int) =~= p@.subrange(
            i + w,
            len as int,
        ));
        i = i + w;
    }
    let mut j: usize = len;
    assert(trim_start(p@) == p@.subrange(i as int, len as int));
    while trail_space_at(p, i, j) > 0
        invariant
            len == p.len(),
            i <= j <= len,
            trim_end(trim_start(p@)) == trim_end(p@.subrange(i as int, j as int)),
        decreases j - i,
    {
        let w = trail_space_at(p, i, j);
        assert(p@.subrange(i as int, j as int).take(j - i - w) =~= p@.subrange(
            i as int,
            j - w,
        ));
        j = j - w;
    }
    assert(trim_end(trim_start(p@)) == p@.subrange(i as int, j as int));
    let mut r: Vec<u8> = Vec::new();
    let mut k: usize = i;
    while k < j
        invariant
            len == p.len(),
            i <= k <= j <= len,
            r@ == ascii_lower(p@.subrange(i as int, k as int)),
        decreases j - k,
    {
        let b = p[k];
        let l = if 0x41 <= b && b <= 0x5a {
            b + 0x20
        } else {
            b
        };
        r.push(l);
        k = k + 1;
        assert(r@ =~= ascii_lower(p@.subrange(i as int, k as int)));
    }
    r
}

/// Whether `items` holds the byte string `e`.
fn holds(items: &Vec<Vec<u8>>, e: &Vec<u8>) -> (r: bool)
    ensures
        r == exists|q: int| 0 <= q < items.len() && (#[trigger] items[q])@ == e@,
{
    let mut k: usize = 0;
    while k < items.len()
        invariant
            k <= items.len(),
            forall|q: int| 0 <= q < k ==> (#[trigger] items[q])@ != e@,
        decreases items.len() - k,
    {
        if path_eq(&items[k], e) {
            return true;
        }
        k = k + 1;
    }
    false
}

/// Parses a comma-separated list of extensions into a set: each entry is
/// trimmed of whitespace and put in ASCII lower case, and empty entries are
/// dropped. No list gives no set.
pub fn parse_exts(exts: Option<&str>) -> (r: Option<ExtSet>)
    ensures
        exts is None ==> r is None,
        exts is Some ==> r is Some && r->0@ == ext_set_of(exts->0.spec_bytes()),
{
    match exts {
        None => None,
        Some(s) => {
            let pieces = split_on_commas(s.as_bytes());
            let ghost sp = split_commas(s.spec_bytes());
            let mut items: Vec<Vec<u8>> = Vec::new();
            let mut i: usize = 0;
            while i < pieces.len()
                invariant
                    i <= pieces.len(),
                    pieces@.map_values(|v: Vec<u8>| v@) == sp,
                    forall|a: int, b: int|
                        0 <= a < b < items.len() ==> (#[trigger] items[a])@ != (#[trigger] items[b])@,
                    forall|k: int| 0 <= k < items.len() ==> (#[trigger] items[k])@.len() > 0
                        && exists|m: int| 0 <= m < i && items[k]@ == normalized(#[trigger] sp[m]),
                    forall|m: int|
                        0 <= m < i && normalized(#[trigger] sp[m]).len() > 0 ==> exists|k: int|
                            0 <= k < items.len() && (#[trigger] items[k])@ == normalized(sp[m]),
                decreases pieces.len() - i,
            {
                assert(pieces@.map_values(|v: Vec<u8>| v@)[i as int] == pieces[i as int]@);
                let e = normalize(&pieces[i]);
                let found = holds(&items, &e);
                let ghost before = items@;
                if e.len() > 0 && !found {
                    items.push(e);
                    proof {
                        assert forall|a: int, b: int|
                            0 <= a < b < items.len() implies (#[trigger] items[a])@ != (
                            #[trigger] items[b])@ by {
                            if b < before.len() {
                                assert(items[a] == before[a]);
                                assert(items[b] == before[b]);
                            } else {
                                assert(items[a] == before[a]);
                            }
                        }
                    }
                }
                proof {
                    assert forall|q: int| 0 <= q < items.len() implies (#[trigger] items[q])@.len()
                        > 0 && exists|m: int| 0 <= m < i + 1 && items[q]@ == normalized(
                        #[trigger] sp[m],
                    ) by {
                        if q < before.len() {
                            assert(items[q] == before[q]);
                        } else {
                            assert(items[q]@ == normalized(sp[i as int]));
                        }
                    }
                    assert forall|m: int|
                        0 <= m < i + 1 && normalized(#[trigger] sp[m]).len() > 0 implies exists|
                        q: int,
                    | 0 <= q < items.len() && (#[trigger] items[q])@ == normalized(sp[m]) by {
                        if m < i {
                            let q = choose|q: int|
                                0 <= q < before.len() && (#[trigger] before[q])@ == normalized(sp[m]);
                            assert(items[q] == before[q]);
                        } else if found {
                        } else {
                            assert(items[before.len() as int]@ == normalized(sp[m]));
                        }
                    }
                }
                i = i + 1;
            }
            let set = ExtSet { items };
            proof {
                assert forall|x: Seq<u8>| set@.contains(x) <==> ext_set_of(s.spec_bytes()).contains(
                    x,
                ) by {
                    if set@.contains(x) {
                        let q = choose|q: int| 0 <= q < set.items.len() && (#[trigger] set.items[q])@ == x;
                        assert(set.items[q]@.len() > 0);
                    }
                    if ext_set_of(s.spec_bytes()).contains(x) {
                        let m = choose|m: int| 0 <= m < sp.len() && x == normalized(#[trigger] sp[m]);
                        assert(normalized(sp[m]).len() > 0);
                    }
                }
                assert(set@ =~= ext_set_of(s.spec_bytes()));
            }
            Some(set)
        },
    }
}

/// Index just after the last `/` of `p`, or 0.
pub open spec fn name_start(p: Seq<u8>) -> int
    decreases p.len(),
{
    if p.len() == 0 {
        0
    } else if p.last() == 0x2f {
        p.len() as int
    } else {
        name_start(p.drop_last())
    }
}

/// Index of the last `.` of `s`, or -1.
pub open spec fn last_dot(s: Seq<u8>) -> int
    decreases s.len(),
{
    if s.len() == 0 {
        -1
    } else if s.last() == 0x2e {
        s.len() - 1
    } else {
        last_dot(s.drop_last())
    }
}

/// The extension of a file path, as `Path::extension` gives it: what follows
/// the last `.` of the last component, where that dot is not the component's
/// first byte; none for `..`.
pub open spec fn extension(p: Seq<u8>) -> Option<Seq<u8>> {
    let name = p.skip(name_start(p));
    if name == seq![0x2eu8, 0x2eu8] {
        None
    } else {
        let d = last_dot(name);
        if d <= 0 {
            None
        } else {
            Some(name.skip(d + 1))
        }
    }
}

/// Whether the extension of `path`, in ASCII lower case, is in `exts`; a path
/// without extension never matches.
pub fn matches_ext(path: &Vec<u8>, exts: &ExtSet) -> (r: bool)
    ensures
        r == (extension(path@) is Some && exts@.contains(ascii_lower(extension(path@)->0))),
{
    let n = path.len();
    let mut start: usize = n;
    assert(path@.take(n as int) =~= path@);
    while start > 0 && path[start - 1] != 0x2f
        invariant
            start <= n == path.len(),
            name_start(path@) == name_start(path@.take(start as int)),
        decreases start,
    {
        assert(path@.take(start as int).drop_last() =~= path@.take(start - 1));
        start = start - 1;
    }
    proof {
        if start > 0 {
            assert(path@.take(start as int).last() == 0x2f);
        }
    }
    let ghost name = path@.skip(start as int);
    if n - start == 2 && path[start] == 0x2e && path[start + 1] == 0x2e {
        assert(name =~= seq![0x2eu8, 0x2eu8]);
        return false;
    }
    proof {
        if name == seq![0x2eu8, 0x2eu8] {
            assert(name.len() == 2 && name[0] == 0x2e && name[1] == 0x2e);
        }
    }
    let mut d: usize = n;
    assert(name.take((n - start) as int) =~= name);
    while d > start && path[d - 1] != 0x2e
        invariant
            start <= d <= n == path.len(),
            name == path@.skip(start as int),
            last_dot(name) == last_dot(name.take(d - start)),
        decreases d,
    {
        assert(name.take(d - start).drop_last() =~= name.take(d - start - 1));
        d = d - 1;
    }
    // `d - 1` is the last dot (when `d > start`); it must not open the name.
    if d - start <= 1 {
        return false;
    }
    let mut ext: Vec<u8> = Vec::new();
    let mut k: usize = d;
    while k < n
        invariant
            d <= k <= n == path.len(),
            ext@ == ascii_lower(path@.subrange(d as int, k as int)),
        decreases n - k,
    {
        let b = path[k];
        let l = if 0x41 <= b && b <= 0x5a {
            b + 0x20
        } else {
            b
        };
        ext.push(l);
        k = k + 1;
        assert(ext@ =~= ascii_lower(path@.subrange(d as int, k as int)));
    }
    assert(name.skip(d - start) =~= path@.subrange(d as int, n as int));
    exts.contains_bytes(&ext)
}

/// Whether an inventory entry is kept: a regular file of at least `min_size`
/// bytes whose extension, when an allow-list is given, is on it.
pub fn keep_file(is_file: bool, len: u64, min_size: u64, path: &Vec<u8>, exts: Option<&ExtSet>) -> (r: bool)
    ensures
        r == (is_file && len >= min_size && match exts {
            None => true,
            Some(set) => extension(path@) is Some && set@.contains(ascii_lower(extension(path@)->0)),
        }),
{
    if !is_file || len < min_size {
        return false;
    }
    match exts {
        None => true,
        Some(set) => matches_ext(path, set),
    }
}

} // verus!

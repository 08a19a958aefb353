//! Directory and photo listings: hidden-entry filtering, image-extension
//! filtering, case-insensitive sorting, and depth-bounded tree assembly.
//!
//! The filesystem itself is enumerated by the caller; this module receives
//! the raw child entries as plain values and is verified end to end.

use vstd::prelude::*;
use vstd::seq_lib::group_to_multiset_ensures;
use crate::order::{
    lemma_lex_refl, lemma_lex_total, lemma_lex_trans, lex_le, lex_le_str, lower_of, to_lower,
};

verus! {

/// One raw filesystem child entry, exactly as a directory read reports it:
/// the final-component name, the full path, and the entry's kind.
pub struct FsEntry {
    pub name: String,
    pub path: String,
    pub is_dir: bool,
    pub is_file: bool,
}

/// A directory in a listing or tree. `is_directory` is always true in every
/// value this crate returns; `children` is non-empty only down to the
/// documented depth bound.
pub struct DirectoryInfo {
    pub name: String,
    pub path: String,
    pub is_directory: bool,
    pub children: Vec<DirectoryInfo>,
}

/// A photo file in a directory listing. `native_render` is a reserved hint
/// and always false.
pub struct PhotoInfo {
    pub name: String,
    pub native_render: bool,
}

/// A listed item that carries a display name to sort by.
pub trait Named {
    spec fn spec_name(&self) -> Seq<char>;

    fn name_str(&self) -> (r: &str)
        ensures
            r@ == self.spec_name(),
    ;
}

impl Named for DirectoryInfo {
    open spec fn spec_name(&self) -> Seq<char> {
        self.name@
    }

    fn name_str(&self) -> (r: &str) {
        self.name.as_str()
    }
}

impl Named for PhotoInfo {
    open spec fn spec_name(&self) -> Seq<char> {
        self.name@
    }

    fn name_str(&self) -> (r: &str) {
        self.name.as_str()
    }
}

/// Sorted ascending by case-folded name: lowercased names are lexicographically
/// non-decreasing.
pub open spec fn sorted_ci<T: Named>(s: Seq<T>) -> bool {
    forall|i: int, j: int|
        0 <= i < j < s.len() ==> lex_le(
            lower_of(#[trigger] s[i].spec_name()),
            lower_of(#[trigger] s[j].spec_name()),
        )
}

/// The elements of `s` whose case-folded name is exactly `k`, in order.
pub open spec fn key_filter<T: Named>(s: Seq<T>, k: Seq<char>) -> Seq<T>
    decreases s.len(),
{
    if s.len() == 0 {
        Seq::<T>::empty()
    } else if lower_of(s[0].spec_name()) == k {
        seq![s[0]] + key_filter(s.drop_first(), k)
    } else {
        key_filter(s.drop_first(), k)
    }
}

proof fn lemma_key_filter_push<T: Named>(s: Seq<T>, x: T, k: Seq<char>)
    ensures
        lower_of(x.spec_name()) == k ==> key_filter(s.push(x), k) == key_filter(s, k).push(x),
        lower_of(x.spec_name()) != k ==> key_filter(s.push(x), k) == key_filter(s, k),
    decreases s.len(),
{
    if s.len() == 0 {
        assert(s.push(x)[0] == x);
        assert(s.push(x).drop_first() =~= Seq::<T>::empty());
        assert(key_filter(Seq::<T>::empty(), k) == Seq::<T>::empty());
        assert(key_filter(s, k) == Seq::<T>::empty());
        if lower_of(x.spec_name()) == k {
            assert(key_filter(s.push(x), k) =~= key_filter(s, k).push(x));
        }
    } else {
        assert(s.push(x)[0] == s[0]);
        assert(s.push(x).drop_first() =~= s.drop_first().push(x));
        lemma_key_filter_push(s.drop_first(), x, k);
        if lower_of(x.spec_name()) == k && lower_of(s[0].spec_name()) == k {
            assert(seq![s[0]] + key_filter(s.drop_first(), k).push(x) =~= (seq![s[0]]
                + key_filter(s.drop_first(), k)).push(x));
        }
    }
}

proof fn lemma_key_filter_first<T: Named>(s: Seq<T>, m: int, k: Seq<char>)
    requires
        0 <= m < s.len(),
        lower_of(s[m].spec_name()) == k,
        forall|j: int| 0 <= j < m ==> lower_of(#[trigger] s[j].spec_name()) != k,
    ensures
        key_filter(s, k) == seq![s[m]] + key_filter(s.remove(m), k),
    decreases m,
{
    if m == 0 {
        assert(s.remove(0) =~= s.drop_first());
    } else {
        assert(lower_of(s[0].spec_name()) != k);
        assert(s.remove(m)[0] == s[0]);
        assert(s.remove(m).drop_first() =~= s.drop_first().remove(m - 1));
        assert(s.drop_first()[m - 1] == s[m]);
        lemma_key_filter_first(s.drop_first(), m - 1, k);
    }
}

proof fn lemma_key_filter_skip<T: Named>(s: Seq<T>, m: int, k: Seq<char>)
    requires
        0 <= m < s.len(),
        lower_of(s[m].spec_name()) != k,
    ensures
        key_filter(s, k) == key_filter(s.remove(m), k),
    decreases m,
{
    if m == 0 {
        assert(s.remove(0) =~= s.drop_first());
    } else {
        assert(s.remove(m)[0] == s[0]);
        assert(s.remove(m).drop_first() =~= s.drop_first().remove(m - 1));
        assert(s.drop_first()[m - 1] == s[m]);
        lemma_key_filter_skip(s.drop_first(), m - 1, k);
    }
}

/// A multiset-equal reordering keeps any pointwise property of the elements.
proof fn lemma_multiset_pointwise<A>(a: Seq<A>, b: Seq<A>, p: spec_fn(A) -> bool)
    requires
        a.to_multiset() == b.to_multiset(),
        forall|i: int| 0 <= i < a.len() ==> p(#[trigger] a[i]),
    ensures
        forall|i: int| 0 <= i < b.len() ==> p(#[trigger] b[i]),
{
    broadcast use group_to_multiset_ensures;

    assert forall|i: int| 0 <= i < b.len() implies p(b[i]) by {
        a.to_multiset_ensures();
        b.to_multiset_ensures();
        assert(b.contains(b[i]));
        assert(b.to_multiset().count(b[i]) > 0);
        assert(a.to_multiset().count(b[i]) > 0);
        assert(a.contains(b[i]));
        let j = choose|j: int| 0 <= j < a.len() && a[j] == b[i];
        assert(p(a[j]));
    }
}

/// A multiset-equal reordering of a sequence yields a multiset-equal
/// reordering of its image under any map.
proof fn lemma_multiset_map<A, B>(a: Seq<A>, b: Seq<A>, f: spec_fn(A) -> B)
    requires
        a.to_multiset() == b.to_multiset(),
    ensures
        a.map_values(f).to_multiset() == b.map_values(f).to_multiset(),
    decreases a.len(),
{
    broadcast use group_to_multiset_ensures;
    broadcast use vstd::multiset::group_multiset_axioms;

    a.to_multiset_ensures();
    b.to_multiset_ensures();
    if a.len() == 0 {
        assert(b.len() == 0);
        assert(a.map_values(f) =~= Seq::<B>::empty());
        assert(b.map_values(f) =~= Seq::<B>::empty());
        assert(a.map_values(f).to_multiset() =~= b.map_values(f).to_multiset());
    } else {
        let n = a.len() - 1;
        let x = a[n];
        assert(a.contains(x));
        assert(a.to_multiset().count(x) > 0);
        assert(b.to_multiset().count(x) > 0);
        assert(b.contains(x));
        let j = choose|j: int| 0 <= j < b.len() && b[j] == x;
        let ap = a.remove(n);
        let bp = b.remove(j);
        assert(ap.to_multiset() =~= bp.to_multiset());
        lemma_multiset_map(ap, bp, f);
        let am = a.map_values(f);
        let bm = b.map_values(f);
        am.to_multiset_ensures();
        bm.to_multiset_ensures();
        assert(ap.map_values(f) =~= am.remove(n));
        assert(bp.map_values(f) =~= bm.remove(j));
        assert(am[n] == f(x));
        assert(bm[j] == f(x));
        assert(am.remove(n).to_multiset() == am.to_multiset().remove(f(x)));
        assert(bm.remove(j).to_multiset() == bm.to_multiset().remove(f(x)));
        assert(am.contains(f(x)));
        assert(bm.contains(f(x)));
        assert(am.to_multiset() =~= bm.to_multiset()) by {
            assert(am.to_multiset().count(f(x)) > 0);
            assert(bm.to_multiset().count(f(x)) > 0);
            assert(am.to_multiset().remove(f(x)) =~= bm.to_multiset().remove(f(x)));
            assert forall|y: B| true implies am.to_multiset().count(y) == bm.to_multiset().count(
                y,
            ) by {
                assert(am.to_multiset().remove(f(x)).count(y) == bm.to_multiset().remove(
                    f(x),
                ).count(y));
            }
        }
    }
}

/// The first index in `v` whose case-folded name is least: every entry
/// before it compares strictly greater.
fn find_min_ci<T: Named>(v: &Vec<T>) -> (m: usize)
    requires
        v@.len() > 0,
    ensures
        m < v@.len(),
        forall|j: int|
            0 <= j < v@.len() ==> lex_le(
                lower_of(v@[m as int].spec_name()),
                lower_of(#[trigger] v@[j].spec_name()),
            ),
        forall|j: int|
            0 <= j < m ==> !lex_le(
                lower_of(#[trigger] v@[j].spec_name()),
                lower_of(v@[m as int].spec_name()),
            ),
{
    let mut m: usize = 0;
    let mut key_m = to_lower(v[0].name_str());
    let mut j: usize = 1;
    proof {
        lemma_lex_refl(lower_of(v@[0].spec_name()));
    }
    while j < v.len()
        invariant
            m < j <= v@.len(),
            key_m@ == lower_of(v@[m as int].spec_name()),
            forall|k: int|
                0 <= k < j ==> lex_le(
                    lower_of(v@[m as int].spec_name()),
                    lower_of(#[trigger] v@[k].spec_name()),
                ),
            forall|k: int|
                0 <= k < m ==> !lex_le(
                    lower_of(#[trigger] v@[k].spec_name()),
                    lower_of(v@[m as int].spec_name()),
                ),
        decreases v@.len() - j,
    {
        let key_j = to_lower(v[j].name_str());
        if !lex_le_str(key_m.as_str(), key_j.as_str()) {
            proof {
                lemma_lex_total(key_m@, key_j@);
                assert forall|k: int| 0 <= k < j + 1 implies lex_le(
                    lower_of(v@[j as int].spec_name()),
                    lower_of(#[trigger] v@[k].spec_name()),
                ) by {
                    if k < j {
                        lemma_lex_trans(
                            lower_of(v@[j as int].spec_name()),
                            lower_of(v@[m as int].spec_name()),
                            lower_of(v@[k].spec_name()),
                        );
                    } else {
                        lemma_lex_refl(lower_of(v@[j as int].spec_name()));
                    }
                }
                assert forall|k: int| 0 <= k < j implies !lex_le(
                    lower_of(#[trigger] v@[k].spec_name()),
                    lower_of(v@[j as int].spec_name()),
                ) by {
                    if lex_le(lower_of(v@[k].spec_name()), lower_of(v@[j as int].spec_name())) {
                        if k < m {
                            lemma_lex_trans(
                                lower_of(v@[k].spec_name()),
                                lower_of(v@[j as int].spec_name()),
                                lower_of(v@[m as int].spec_name()),
                            );
                        } else {
                            lemma_lex_trans(
                                lower_of(v@[m as int].spec_name()),
                                lower_of(v@[k].spec_name()),
                                lower_of(v@[j as int].spec_name()),
                            );
                        }
                    }
                }
            }
            m = j;
            key_m = key_j;
        }
        j = j + 1;
    }
    m
}

/// Sorts items ascending by case-folded name; the result is a permutation of
/// the input, and the sort is stable: for every case-folded key, the
/// subsequence of items with that key keeps its input order.
pub fn sort_by_name_ci<T: Named>(v: Vec<T>) -> (r: Vec<T>)
    ensures
        r@.len() == v@.len(),
        r@.to_multiset() == v@.to_multiset(),
        sorted_ci(r@),
        forall|k: Seq<char>| #[trigger] key_filter(r@, k) == key_filter(v@, k),
{
    broadcast use group_to_multiset_ensures;
    broadcast use vstd::multiset::group_multiset_axioms;

    let mut rest = v;
    let mut out: Vec<T> = Vec::new();
    proof {
        assert(out@.to_multiset().add(rest@.to_multiset()) =~= v@.to_multiset());
        assert forall|k: Seq<char>| #[trigger] key_filter(out@, k) + key_filter(rest@, k)
            == key_filter(v@, k) by {
            assert(key_filter(out@, k) + key_filter(rest@, k) =~= key_filter(v@, k));
        }
    }
    while rest.len() > 0
        invariant
            out@.len() + rest@.len() == v@.len(),
            out@.to_multiset().add(rest@.to_multiset()) == v@.to_multiset(),
            sorted_ci(out@),
            forall|i: int, j: int|
                0 <= i < out@.len() && 0 <= j < rest@.len() ==> lex_le(
                    lower_of(#[trigger] out@[i].spec_name()),
                    lower_of(#[trigger] rest@[j].spec_name()),
                ),
            forall|k: Seq<char>| #[trigger] key_filter(out@, k) + key_filter(rest@, k)
                == key_filter(v@, k),
        decreases rest@.len(),
    {
        let ghost out0 = out@;
        let ghost rest0 = rest@;
        let m = find_min_ci(&rest);
        let x = rest.remove(m);
        out.push(x);
        proof {
            out0.to_multiset_ensures();
            rest0.to_multiset_ensures();
            assert(rest0.contains(rest0[m as int]));
            assert(rest0.to_multiset().count(rest0[m as int]) > 0);
            assert(out@ == out0.push(x));
            assert(out@.to_multiset() =~= out0.to_multiset().insert(x));
            assert(rest@.to_multiset() =~= rest0.to_multiset().remove(x));
            assert(out@.to_multiset().add(rest@.to_multiset()) =~= out0.to_multiset().add(
                rest0.to_multiset(),
            ));
            assert forall|j: int| 0 <= j < rest@.len() implies lex_le(
                lower_of(x.spec_name()),
                lower_of(#[trigger] rest@[j].spec_name()),
            ) by {
                if j < m {
                    assert(rest@[j] == rest0[j]);
                } else {
                    assert(rest@[j] == rest0[j + 1]);
                }
            }
            let kx = lower_of(x.spec_name());
            assert forall|k: Seq<char>| #[trigger] key_filter(out@, k) + key_filter(rest@, k)
                == key_filter(v@, k) by {
                lemma_key_filter_push(out0, x, k);
                if k == kx {
                    assert forall|j: int| 0 <= j < m implies lower_of(
                        #[trigger] rest0[j].spec_name(),
                    ) != k by {
                        if lower_of(rest0[j].spec_name()) == k {
                            lemma_lex_refl(kx);
                        }
                    }
                    lemma_key_filter_first(rest0, m as int, k);
                    assert(key_filter(out0, k).push(x) + key_filter(rest@, k) =~= key_filter(
                        out0,
                        k,
                    ) + (seq![x] + key_filter(rest@, k)));
                } else {
                    lemma_key_filter_skip(rest0, m as int, k);
                }
            }
        }
    }
    proof {
        rest@.to_multiset_ensures();
        assert(rest@ =~= Seq::<T>::empty());
        assert forall|y: T| true implies out@.to_multiset().count(y) == v@.to_multiset().count(
            y,
        ) by {
            assert(!rest@.contains(y));
            assert(rest@.to_multiset().count(y) == 0);
        }
        assert(out@.to_multiset() =~= v@.to_multiset());
        assert forall|k: Seq<char>| #[trigger] key_filter(out@, k) == key_filter(v@, k) by {
            assert(rest@ =~= Seq::<T>::empty());
            assert(key_filter(out@, k) + key_filter(rest@, k) =~= key_filter(out@, k));
        }
    }
    out
}

/// The name begins with a dot, the convention for a hidden entry.
pub open spec fn starts_with_dot(s: Seq<char>) -> bool {
    s.len() > 0 && s[0] == '.'
}

/// Tests whether a name denotes a hidden entry.
pub fn is_hidden_name(name: &str) -> (r: bool)
    ensures
        r == starts_with_dot(name@),
{
    if name.unicode_len() == 0 {
        false
    } else {
        name.get_char(0) == '.'
    }
}

/// The position of the last dot in `s`, or -1 if there is none.
pub open spec fn last_dot(s: Seq<char>) -> int
    decreases s.len(),
{
    if s.len() == 0 {
        -1
    } else if s[s.len() - 1] == '.' {
        s.len() - 1
    } else {
        last_dot(s.drop_last())
    }
}

/// The extension of a file name: the portion after the last dot, unless the
/// only dot begins the name or there is no dot at all.
pub open spec fn ext_of(s: Seq<char>) -> Option<Seq<char>> {
    let d = last_dot(s);
    if d <= 0 {
        None
    } else {
        Some(s.subrange(d + 1, s.len() as int))
    }
}

proof fn lemma_last_dot_at(s: Seq<char>, d: int)
    requires
        0 <= d < s.len(),
        s[d] == '.',
        forall|j: int| d < j < s.len() ==> s[j] != '.',
    ensures
        last_dot(s) == d,
    decreases s.len(),
{
    if d < s.len() - 1 {
        lemma_last_dot_at(s.drop_last(), d);
    }
}

proof fn lemma_last_dot_none(s: Seq<char>)
    requires
        forall|j: int| 0 <= j < s.len() ==> s[j] != '.',
    ensures
        last_dot(s) == -1,
    decreases s.len(),
{
    if s.len() > 0 {
        lemma_last_dot_none(s.drop_last());
    }
}

/// Extracts the extension of a file name, if it has one.
pub fn extension_of(name: &str) -> (r: Option<String>)
    ensures
        (r is Some) == (ext_of(name@) is Some),
        r matches Some(e) ==> ext_of(name@) matches Some(x) && e@ == x,
{
    let n = name.unicode_len();
    let mut i: usize = n;
    while i > 0
        invariant
            i <= n,
            n == name@.len(),
            forall|j: int| i <= j < n ==> name@[j] != '.',
        decreases i,
    {
        let c = name.get_char(i - 1);
        if c == '.' {
            if i == 1 {
                proof {
                    lemma_last_dot_at(name@, 0);
                }
                return None;
            }
            let e = name.substring_char(i, n);
            proof {
                lemma_last_dot_at(name@, i as int - 1);
            }
            return Some(e.to_owned());
        }
        i = i - 1;
    }
    proof {
        lemma_last_dot_none(name@);
    }
    None
}

/// The recognized image file extensions, in lowercase.
pub open spec fn is_image_ext(e: Seq<char>) -> bool {
    ||| e == "jpg"@
    ||| e == "jpeg"@
    ||| e == "png"@
    ||| e == "gif"@
    ||| e == "bmp"@
    ||| e == "tiff"@
    ||| e == "webp"@
    ||| e == "heic"@
    ||| e == "svg"@
}

fn is_image_ext_str(s: &String) -> (r: bool)
    ensures
        r == is_image_ext(s@),
{
    *s == "jpg".to_owned() || *s == "jpeg".to_owned() || *s == "png".to_owned() || *s
        == "gif".to_owned() || *s == "bmp".to_owned() || *s == "tiff".to_owned() || *s
        == "webp".to_owned() || *s == "heic".to_owned() || *s == "svg".to_owned()
}

/// A directory child that a listing keeps: a directory whose name is not
/// hidden.
pub open spec fn keep_dir(e: FsEntry) -> bool {
    e.is_dir && !starts_with_dot(e.name@)
}

/// A file that a photo listing keeps: a regular file whose extension,
/// case-folded, is a recognized image extension.
pub open spec fn keep_photo(e: FsEntry) -> bool {
    &&& e.is_file
    &&& ext_of(e.name@) matches Some(x) && is_image_ext(lower_of(x))
}

/// Tests whether an entry is kept by the photo listing.
pub fn is_photo_entry(e: &FsEntry) -> (r: bool)
    ensures
        r == keep_photo(*e),
{
    if !e.is_file {
        return false;
    }
    match extension_of(e.name.as_str()) {
        None => false,
        Some(ext) => {
            let low = to_lower(ext.as_str());
            is_image_ext_str(&low)
        },
    }
}

/// The name and path views of a raw entry.
pub open spec fn entry_view(e: FsEntry) -> (Seq<char>, Seq<char>) {
    (e.name@, e.path@)
}

/// The name and path views of a directory node.
pub open spec fn dir_view(d: DirectoryInfo) -> (Seq<char>, Seq<char>) {
    (d.name@, d.path@)
}

/// The raw entries a directory listing keeps, in enumeration order.
pub open spec fn kept_dirs(s: Seq<FsEntry>) -> Seq<FsEntry> {
    s.filter(|e: FsEntry| keep_dir(e))
}

/// The raw entries a photo listing keeps, in enumeration order.
pub open spec fn kept_photos(s: Seq<FsEntry>) -> Seq<FsEntry> {
    s.filter(|e: FsEntry| keep_photo(e))
}

/// The name and path views of a sequence of raw entries.
pub open spec fn entry_views(s: Seq<FsEntry>) -> Seq<(Seq<char>, Seq<char>)> {
    s.map_values(|e: FsEntry| entry_view(e))
}

/// The name and path views of a sequence of directory nodes.
pub open spec fn dir_views(s: Seq<DirectoryInfo>) -> Seq<(Seq<char>, Seq<char>)> {
    s.map_values(|d: DirectoryInfo| dir_view(d))
}

/// The name views of a sequence of raw entries.
pub open spec fn entry_names(s: Seq<FsEntry>) -> Seq<Seq<char>> {
    s.map_values(|e: FsEntry| e.name@)
}

/// The name views of a sequence of photo entries.
pub open spec fn photo_names(s: Seq<PhotoInfo>) -> Seq<Seq<char>> {
    s.map_values(|p: PhotoInfo| p.name@)
}

/// The raw entries whose case-folded name is exactly `k`, in order.
pub open spec fn entry_key_filter(s: Seq<FsEntry>, k: Seq<char>) -> Seq<FsEntry>
    decreases s.len(),
{
    if s.len() == 0 {
        Seq::<FsEntry>::empty()
    } else if lower_of(s[0].name@) == k {
        seq![s[0]] + entry_key_filter(s.drop_first(), k)
    } else {
        entry_key_filter(s.drop_first(), k)
    }
}

/// Two pointwise-related sequences keep their relation after filtering both
/// by the same case-folded name, provided the relation forces equal names.
proof fn lemma_key_filter_rel<T: Named>(
    a: Seq<T>,
    b: Seq<FsEntry>,
    k: Seq<char>,
    rel: spec_fn(T, FsEntry) -> bool,
)
    requires
        a.len() == b.len(),
        forall|i: int| 0 <= i < a.len() ==> rel(#[trigger] a[i], b[i]),
        forall|t: T, e: FsEntry| #[trigger] rel(t, e) ==> t.spec_name() == e.name@,
    ensures
        key_filter(a, k).len() == entry_key_filter(b, k).len(),
        forall|i: int|
            0 <= i < key_filter(a, k).len() ==> rel(
                #[trigger] key_filter(a, k)[i],
                entry_key_filter(b, k)[i],
            ),
    decreases a.len(),
{
    if a.len() > 0 {
        assert(rel(a[0], b[0]));
        assert forall|i: int| 0 <= i < a.drop_first().len() implies rel(
            #[trigger] a.drop_first()[i],
            b.drop_first()[i],
        ) by {
            assert(a.drop_first()[i] == a[i + 1]);
            assert(b.drop_first()[i] == b[i + 1]);
        }
        lemma_key_filter_rel(a.drop_first(), b.drop_first(), k, rel);
        if lower_of(a[0].spec_name()) == k {
            assert forall|i: int| 0 <= i < key_filter(a, k).len() implies rel(
                #[trigger] key_filter(a, k)[i],
                entry_key_filter(b, k)[i],
            ) by {
                if i > 0 {
                    assert(key_filter(a, k)[i] == key_filter(a.drop_first(), k)[i - 1]);
                    assert(entry_key_filter(b, k)[i] == entry_key_filter(b.drop_first(), k)[i
                        - 1]);
                }
            }
        }
    }
}

proof fn lemma_filter_take_step(s: Seq<FsEntry>, i: int, p: spec_fn(FsEntry) -> bool)
    requires
        0 <= i < s.len(),
    ensures
        p(s[i]) ==> s.take(i + 1).filter(p) == s.take(i).filter(p).push(s[i]),
        !p(s[i]) ==> s.take(i + 1).filter(p) == s.take(i).filter(p),
{
    reveal(Seq::<_>::filter);
    let a = s.take(i + 1);
    let b = s.take(i);
    assert(a.drop_last() =~= b);
    assert(a.last() == s[i]);
    assert(a.filter(p) == if p(a.last()) {
        a.drop_last().filter(p).push(a.last())
    } else {
        a.drop_last().filter(p)
    });
}

/// Keeps the child directories that are not hidden, and sorts them ascending
/// by case-folded name. Every returned node is a directory with no children
/// of its own yet; the returned names and paths are exactly those of the kept
/// entries, and entries whose case-folded names tie keep their enumeration
/// order.
pub fn filter_sort_directories(entries: &Vec<FsEntry>) -> (r: Vec<DirectoryInfo>)
    ensures
        sorted_ci(r@),
        r@.len() == kept_dirs(entries@).len(),
        dir_views(r@).to_multiset() == entry_views(kept_dirs(entries@)).to_multiset(),
        forall|i: int|
            0 <= i < r@.len() ==> (#[trigger] r@[i]).is_directory && !starts_with_dot(r@[i].name@)
                && r@[i].children@.len() == 0,
        forall|k: Seq<char>| #[trigger] dir_views(key_filter(r@, k)) == entry_views(
            entry_key_filter(kept_dirs(entries@), k),
        ),
{
    let ghost all = entries@;
    let ghost kd = |e: FsEntry| keep_dir(e);
    let ghost good = |d: DirectoryInfo|
        d.is_directory && !starts_with_dot(d.name@) && d.children@.len() == 0;
    let mut kept: Vec<DirectoryInfo> = Vec::new();
    let mut i: usize = 0;
    proof {
        assert(all.take(0) =~= Seq::<FsEntry>::empty());
        assert(all.take(0).filter(kd) =~= Seq::<FsEntry>::empty());
        assert(dir_views(kept@) =~= entry_views(all.take(0).filter(kd)));
    }
    while i < entries.len()
        invariant
            i <= all.len(),
            all == entries@,
            kd == (|e: FsEntry| keep_dir(e)),
            good == (|d: DirectoryInfo|
                d.is_directory && !starts_with_dot(d.name@) && d.children@.len() == 0),
            kept@.len() == all.take(i as int).filter(kd).len(),
            dir_views(kept@) == entry_views(all.take(i as int).filter(kd)),
            forall|k: int| 0 <= k < kept@.len() ==> good(#[trigger] kept@[k]),
        decreases all.len() - i,
    {
        let ghost prev = kept@;
        let ghost pre = all.take(i as int).filter(kd);
        let e = &entries[i];
        let hidden = is_hidden_name(e.name.as_str());
        proof {
            lemma_filter_take_step(all, i as int, kd);
        }
        if e.is_dir && !hidden {
            let node = DirectoryInfo {
                name: e.name.clone(),
                path: e.path.clone(),
                is_directory: true,
                children: Vec::new(),
            };
            kept.push(node);
            proof {
                assert(kd(all[i as int]));
                assert(all.take(i as int + 1).filter(kd) == pre.push(all[i as int]));
                assert(kept@ == prev.push(node));
                assert(dir_view(node) == entry_view(all[i as int]));
                let nxt = all.take(i as int + 1).filter(kd);
                assert forall|k: int| 0 <= k < kept@.len() implies dir_views(kept@)[k]
                    == entry_views(nxt)[k] by {
                    if k < prev.len() {
                        assert(dir_views(prev)[k] == entry_views(pre)[k]);
                        assert(kept@[k] == prev[k]);
                        assert(nxt[k] == pre[k]);
                    } else {
                        assert(kept@[k] == node);
                        assert(nxt[k] == all[i as int]);
                    }
                }
                assert(dir_views(kept@) =~= entry_views(nxt));
            }
        } else {
            proof {
                assert(!kd(all[i as int]));
            }
        }
        i = i + 1;
    }
    proof {
        assert(all.take(all.len() as int) =~= all);
    }
    let r = sort_by_name_ci(kept);
    proof {
        let dv = |d: DirectoryInfo| dir_view(d);
        lemma_multiset_map(r@, kept@, dv);
        assert(r@.map_values(dv) =~= dir_views(r@));
        assert(kept@.map_values(dv) =~= dir_views(kept@));
        lemma_multiset_pointwise(kept@, r@, good);
        let rel = |d: DirectoryInfo, e: FsEntry| dir_view(d) == entry_view(e);
        let kd2 = kept_dirs(entries@);
        assert forall|i: int| 0 <= i < kept@.len() implies rel(#[trigger] kept@[i], kd2[i]) by {
            assert(dir_views(kept@)[i] == entry_views(kd2)[i]);
        }
        assert forall|k: Seq<char>| #[trigger] dir_views(key_filter(r@, k)) == entry_views(
            entry_key_filter(kd2, k),
        ) by {
            lemma_key_filter_rel(kept@, kd2, k, rel);
            assert(key_filter(r@, k) == key_filter(kept@, k));
            assert forall|i: int| 0 <= i < key_filter(kept@, k).len() implies dir_views(
                key_filter(kept@, k),
            )[i] == entry_views(entry_key_filter(kd2, k))[i] by {
                assert(rel(key_filter(kept@, k)[i], entry_key_filter(kd2, k)[i]));
            }
            assert(dir_views(key_filter(kept@, k)) =~= entry_views(entry_key_filter(kd2, k)));
        }
    }
    r
}

/// Keeps the regular files with a recognized image extension, and sorts them
/// ascending by case-folded name. `native_render` is false on every returned
/// entry; the returned names are exactly those of the kept entries, and
/// entries whose case-folded names tie keep their enumeration order.
pub fn filter_sort_photos(entries: &Vec<FsEntry>) -> (r: Vec<PhotoInfo>)
    ensures
        sorted_ci(r@),
        r@.len() == kept_photos(entries@).len(),
        photo_names(r@).to_multiset() == entry_names(kept_photos(entries@)).to_multiset(),
        forall|i: int| 0 <= i < r@.len() ==> !(#[trigger] r@[i]).native_render,
        forall|k: Seq<char>| #[trigger] photo_names(key_filter(r@, k)) == entry_names(
            entry_key_filter(kept_photos(entries@), k),
        ),
{
    let ghost all = entries@;
    let ghost kp = |e: FsEntry| keep_photo(e);
    let ghost good = |p: PhotoInfo| !p.native_render;
    let mut kept: Vec<PhotoInfo> = Vec::new();
    let mut i: usize = 0;
    proof {
        assert(all.take(0) =~= Seq::<FsEntry>::empty());
        assert(all.take(0).filter(kp) =~= Seq::<FsEntry>::empty());
        assert(photo_names(kept@) =~= entry_names(all.take(0).filter(kp)));
    }
    while i < entries.len()
        invariant
            i <= all.len(),
            all == entries@,
            kp == (|e: FsEntry| keep_photo(e)),
            good == (|p: PhotoInfo| !p.native_render),
            kept@.len() == all.take(i as int).filter(kp).len(),
            photo_names(kept@) == entry_names(all.take(i as int).filter(kp)),
            forall|k: int| 0 <= k < kept@.len() ==> good(#[trigger] kept@[k]),
        decreases all.len() - i,
    {
        let ghost prev = kept@;
        let ghost pre = all.take(i as int).filter(kp);
        let e = &entries[i];
        let keep = is_photo_entry(e);
        proof {
            lemma_filter_take_step(all, i as int, kp);
        }
        if keep {
            kept.push(PhotoInfo { name: e.name.clone(), native_render: false });
            proof {
                assert(kp(all[i as int]));
                assert(all.take(i as int + 1).filter(kp) == pre.push(all[i as int]));
                let nxt = all.take(i as int + 1).filter(kp);
                assert forall|k: int| 0 <= k < kept@.len() implies photo_names(kept@)[k]
                    == entry_names(nxt)[k] by {
                    if k < prev.len() {
                        assert(photo_names(prev)[k] == entry_names(pre)[k]);
                        assert(kept@[k] == prev[k]);
                        assert(nxt[k] == pre[k]);
                    } else {
                        assert(nxt[k] == all[i as int]);
                    }
                }
                assert(photo_names(kept@) =~= entry_names(nxt));
            }
        } else {
            proof {
                assert(!kp(all[i as int]));
            }
        }
        i = i + 1;
    }
    proof {
        assert(all.take(all.len() as int) =~= all);
    }
    let r = sort_by_name_ci(kept);
    proof {
        let pv = |p: PhotoInfo| p.name@;
        lemma_multiset_map(r@, kept@, pv);
        assert(r@.map_values(pv) =~= photo_names(r@));
        assert(kept@.map_values(pv) =~= photo_names(kept@));
        lemma_multiset_pointwise(kept@, r@, good);
        let rel = |p: PhotoInfo, e: FsEntry| p.name@ == e.name@;
        let kp2 = kept_photos(entries@);
        assert forall|i: int| 0 <= i < kept@.len() implies rel(#[trigger] kept@[i], kp2[i]) by {
            assert(photo_names(kept@)[i] == entry_names(kp2)[i]);
        }
        assert forall|k: Seq<char>| #[trigger] photo_names(key_filter(r@, k)) == entry_names(
            entry_key_filter(kp2, k),
        ) by {
            lemma_key_filter_rel(kept@, kp2, k, rel);
            assert(key_filter(r@, k) == key_filter(kept@, k));
            assert forall|i: int| 0 <= i < key_filter(kept@, k).len() implies photo_names(
                key_filter(kept@, k),
            )[i] == entry_names(entry_key_filter(kp2, k))[i] by {
                assert(rel(key_filter(kept@, k)[i], entry_key_filter(kp2, k)[i]));
            }
            assert(photo_names(key_filter(kept@, k)) =~= entry_names(entry_key_filter(kp2, k)));
        }
    }
    r
}

/// One child node of the assembled tree is well formed: it carries the name
/// and path of the already-listed child directory `src`, and its children are
/// exactly the kept, sorted listing of `entries`, each one a leaf.
pub open spec fn tree_child_ok(c: DirectoryInfo, src: DirectoryInfo, entries: Seq<FsEntry>) -> bool {
    &&& c.name == src.name
    &&& c.path == src.path
    &&& c.is_directory
    &&& sorted_ci(c.children@)
    &&& c.children@.len() == kept_dirs(entries).len()
    &&& dir_views(c.children@).to_multiset() == entry_views(kept_dirs(entries)).to_multiset()
    &&& forall|k: int|
        0 <= k < c.children@.len() ==> (#[trigger] c.children@[k]).is_directory
            && !starts_with_dot(c.children@[k].name@) && c.children@[k].children@.len() == 0
}

/// Assembles the depth-bounded directory tree: the root node, its child
/// directories as already listed, and for each child one further filtered and
/// sorted listing built from that child's raw entries — and nothing deeper,
/// so every grandchild node has an empty children sequence.
pub fn assemble_tree(
    root_name: String,
    root_path: String,
    children: Vec<DirectoryInfo>,
    grand_entries: Vec<Vec<FsEntry>>,
) -> (r: DirectoryInfo)
    requires
        children@.len() == grand_entries@.len(),
    ensures
        r.name == root_name,
        r.path == root_path,
        r.is_directory,
        r.children@.len() == children@.len(),
        forall|i: int|
            0 <= i < children@.len() ==> tree_child_ok(
                #[trigger] r.children@[i],
                children@[i],
                grand_entries@[i]@,
            ),
        sorted_ci(children@) ==> sorted_ci(r.children@),
{
    let ghost c0 = children@;
    let ghost g0 = grand_entries@;
    let mut cs = children;
    let mut gs = grand_entries;
    let mut out: Vec<DirectoryInfo> = Vec::new();
    while cs.len() > 0
        invariant
            cs@.len() == gs@.len(),
            out@.len() + cs@.len() == c0.len(),
            g0.len() == c0.len(),
            cs@ == c0.skip(out@.len() as int),
            gs@ == g0.skip(out@.len() as int),
            forall|i: int|
                0 <= i < out@.len() ==> tree_child_ok(#[trigger] out@[i], c0[i], g0[i]@),
        decreases cs@.len(),
    {
        let ghost n = out@.len() as int;
        let c = cs.remove(0);
        let ge = gs.remove(0);
        proof {
            assert(c == c0[n]);
            assert(ge == g0[n]);
            assert(cs@ =~= c0.skip(n + 1));
            assert(gs@ =~= g0.skip(n + 1));
        }
        let kids = filter_sort_directories(&ge);
        let node = DirectoryInfo {
            name: c.name,
            path: c.path,
            is_directory: true,
            children: kids,
        };
        out.push(node);
        proof {
            assert(tree_child_ok(out@[n], c0[n], g0[n]@));
        }
    }
    let root = DirectoryInfo {
        name: root_name,
        path: root_path,
        is_directory: true,
        children: out,
    };
    proof {
        if sorted_ci(c0) {
            assert forall|i: int, j: int| 0 <= i < j < root.children@.len() implies lex_le(
                lower_of(#[trigger] root.children@[i].spec_name()),
                lower_of(#[trigger] root.children@[j].spec_name()),
            ) by {
                assert(tree_child_ok(root.children@[i], c0[i], g0[i]@));
                assert(tree_child_ok(root.children@[j], c0[j], g0[j]@));
                assert(lex_le(lower_of(c0[i].spec_name()), lower_of(c0[j].spec_name())));
            }
        }
    }
    root
}

} // verus!

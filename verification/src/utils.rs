//! The content-addressed build cache: deterministic (lexicographic-path)
//! hashing of a source tree's files, artifact naming, the cache-hit
//! decision, and the hot-reload driver's qualifying-change test.

use vstd::prelude::*;
use crate::pattern::{lex_lt, lemma_lex_skip_prefix, lemma_lex_trans, views_of};

verus! {

/// The character codes of a text, for lexicographic comparison.
pub open spec fn codes(s: Seq<char>) -> Seq<int> {
    s.map_values(|c: char| c as int)
}

/// Strict lexicographic order on texts, by character code.
pub open spec fn str_lt(a: Seq<char>, b: Seq<char>) -> bool {
    lex_lt(codes(a), codes(b))
}

/// Whether `a` strictly precedes `b` lexicographically.
pub fn str_before(a: &str, b: &str) -> (r: bool)
    ensures
        r == str_lt(a@, b@),
{
    let ghost ka = codes(a@);
    let ghost kb = codes(b@);
    let na = a.unicode_len();
    let nb = b.unicode_len();
    let mut i: usize = 0;
    proof {
        assert(ka.len() == na);
        assert(kb.len() == nb);
    }
    while i < na && i < nb
        invariant
            0 <= i <= na,
            i <= nb,
            na == a@.len(),
            nb == b@.len(),
            ka == codes(a@),
            kb == codes(b@),
            ka.len() == na,
            kb.len() == nb,
            forall|j: int| 0 <= j < i ==> ka[j] == kb[j],
        decreases na - i,
    {
        let ca = a.get_char(i) as u32;
        let cb = b.get_char(i) as u32;
        proof {
            assert(ka[i as int] == a@[i as int] as int);
            assert(kb[i as int] == b@[i as int] as int);
            lemma_lex_skip_prefix(ka, kb, i as int);
        }
        if ca < cb {
            return true;
        }
        if ca > cb {
            return false;
        }
        proof {
            assert(a@[i as int] as int == b@[i as int] as int);
        }
        i += 1;
    }
    proof {
        lemma_lex_skip_prefix(ka, kb, i as int);
    }
    na < nb
}

/// The final component of a path: everything after the last slash.
pub open spec fn last_component(p: Seq<char>) -> Seq<char>
    decreases p.len(),
{
    if p.len() == 0 {
        Seq::empty()
    } else if p.last() == '/' {
        Seq::empty()
    } else {
        last_component(p.drop_last()).push(p.last())
    }
}

/// The index of the last dot, or -1 when there is none.
pub open spec fn last_dot(c: Seq<char>) -> int
    decreases c.len(),
{
    if c.len() == 0 {
        -1
    } else if c.last() == '.' {
        c.len() - 1
    } else {
        last_dot(c.drop_last())
    }
}

/// The extension of a path: what follows the last dot of its final
/// component, provided that dot is not the component's first character.
pub open spec fn ext_of(p: Seq<char>) -> Option<Seq<char>> {
    let c = last_component(p);
    let d = last_dot(c);
    if d <= 0 {
        None
    } else {
        Some(c.skip(d + 1))
    }
}

proof fn lemma_last_component_at(p: Seq<char>, ls: int)
    requires
        0 <= ls < p.len(),
        p[ls] == '/',
        forall|j: int| ls < j < p.len() ==> p[j] != '/',
    ensures
        last_component(p) == p.skip(ls + 1),
    decreases p.len(),
{
    if ls == p.len() - 1 {
        assert(p.skip(ls + 1) =~= Seq::<char>::empty());
    } else {
        assert(p.last() != '/');
        assert forall|j: int| ls < j < p.drop_last().len() implies p.drop_last()[j] != '/' by {
            assert(p.drop_last()[j] == p[j]);
        }
        lemma_last_component_at(p.drop_last(), ls);
        assert(p.skip(ls + 1) =~= p.drop_last().skip(ls + 1).push(p.last()));
    }
}

proof fn lemma_last_component_none(p: Seq<char>)
    requires
        forall|j: int| 0 <= j < p.len() ==> p[j] != '/',
    ensures
        last_component(p) == p,
    decreases p.len(),
{
    if p.len() > 0 {
        assert forall|j: int| 0 <= j < p.drop_last().len() implies p.drop_last()[j] != '/' by {
            assert(p.drop_last()[j] == p[j]);
        }
        lemma_last_component_none(p.drop_last());
        assert(p.drop_last().push(p.last()) =~= p);
    }
}

proof fn lemma_last_dot_at(c: Seq<char>, d: int)
    requires
        0 <= d < c.len(),
        c[d] == '.',
        forall|j: int| d < j < c.len() ==> c[j] != '.',
    ensures
        last_dot(c) == d,
    decreases c.len(),
{
    if d < c.len() - 1 {
        assert(c.last() != '.');
        assert forall|j: int| d < j < c.drop_last().len() implies c.drop_last()[j] != '.' by {
            assert(c.drop_last()[j] == c[j]);
        }
        lemma_last_dot_at(c.drop_last(), d);
    }
}

proof fn lemma_last_dot_none(c: Seq<char>)
    requires
        forall|j: int| 0 <= j < c.len() ==> c[j] != '.',
    ensures
        last_dot(c) == -1,
    decreases c.len(),
{
    if c.len() > 0 {
        assert forall|j: int| 0 <= j < c.drop_last().len() implies c.drop_last()[j] != '.' by {
            assert(c.drop_last()[j] == c[j]);
        }
        lemma_last_dot_none(c.drop_last());
    }
}

/// The final component of a path.
pub fn file_name_of(path: &str) -> (r: String)
    ensures
        r@ == last_component(path@),
{
    let len = path.unicode_len();
    let mut slash: usize = 0;
    let mut has_slash = false;
    let mut i: usize = 0;
    while i < len
        invariant
            0 <= i <= len,
            len == path@.len(),
            has_slash ==> slash < i && path@[slash as int] == '/' && forall|j: int|
                slash < j < i ==> path@[j] != '/',
            !has_slash ==> forall|j: int| 0 <= j < i ==> path@[j] != '/',
        decreases len - i,
    {
        if path.get_char(i) == '/' {
            slash = i;
            has_slash = true;
        }
        i += 1;
    }
    if has_slash {
        proof {
            lemma_last_component_at(path@, slash as int);
        }
        path.substring_char(slash + 1, len).to_owned()
    } else {
        proof {
            lemma_last_component_none(path@);
            assert(path@.take(len as int) =~= path@);
        }
        path.to_owned()
    }
}

/// The extension of a path, when it has one.
pub fn extension_of(path: &str) -> (r: Option<String>)
    ensures
        match r {
            Some(e) => ext_of(path@) == Some(e@),
            None => ext_of(path@) is None,
        },
{
    let name = file_name_of(path);
    let c = name.as_str();
    let clen = c.unicode_len();
    let mut dot: usize = 0;
    let mut has_dot = false;
    let mut i: usize = 0;
    while i < clen
        invariant
            0 <= i <= clen,
            clen == c@.len(),
            c@ == last_component(path@),
            has_dot ==> dot < i && c@[dot as int] == '.' && forall|j: int|
                dot < j < i ==> c@[j] != '.',
            !has_dot ==> forall|j: int| 0 <= j < i ==> c@[j] != '.',
        decreases clen - i,
    {
        if c.get_char(i) == '.' {
            dot = i;
            has_dot = true;
        }
        i += 1;
    }
    if has_dot && dot > 0 {
        proof {
            lemma_last_dot_at(c@, dot as int);
            assert(c@.subrange(dot + 1, clen as int) =~= c@.skip(dot + 1));
        }
        Some(c.substring_char(dot + 1, clen).to_owned())
    } else {
        proof {
            if has_dot {
                lemma_last_dot_at(c@, dot as int);
            } else {
                lemma_last_dot_none(c@);
            }
        }
        None
    }
}

/// Whether a changed file should trigger a rebuild: a script source (`ts` or
/// `js` extension) or the routing-configuration file.
pub open spec fn qualifies(p: Seq<char>) -> bool {
    ext_of(p) == Some("ts"@) || ext_of(p) == Some("js"@) || last_component(p) == "config.toml"@
}

/// Whether this path is a script source or the routing-configuration file.
pub fn is_ts_or_js_or_config_toml(path: &str) -> (r: bool)
    ensures
        r == qualifies(path@),
{
    let is_source = match extension_of(path) {
        Some(e) => e == "ts".to_owned() || e == "js".to_owned(),
        None => false,
    };
    if is_source {
        return true;
    }
    let name = file_name_of(path);
    name == "config.toml".to_owned()
}

/// Whether any path of an event batch qualifies for a rebuild.
pub fn should_reload(paths: &Vec<String>) -> (r: bool)
    ensures
        r == exists|i: int| 0 <= i < paths@.len() && qualifies(#[trigger] paths@[i]@),
{
    let mut i: usize = 0;
    while i < paths.len()
        invariant
            0 <= i <= paths.len(),
            forall|j: int| 0 <= j < i ==> !qualifies(#[trigger] paths@[j]@),
        decreases paths.len() - i,
    {
        if is_ts_or_js_or_config_toml(paths[i].as_str()) {
            return true;
        }
        i += 1;
    }
    false
}

/// blake3's hasher state; opaque to the verifier, carried between the
/// trusted calls below.
#[verifier::external_type_specification]
#[verifier::external_body]
pub struct ExHasher(blake3::Hasher);

/// The byte stream a hasher has been fed so far.
pub uninterp spec fn hasher_fed(h: blake3::Hasher) -> Seq<u8>;

/// The lowercase hexadecimal digest blake3 assigns to a byte stream.
pub uninterp spec fn blake3_hex(data: Seq<u8>) -> Seq<char>;

/// Relies on blake3::Hasher::new: a fresh hasher has been fed nothing.
#[verifier::external_body]
fn hasher_new() -> (h: blake3::Hasher)
    ensures
        hasher_fed(h) == Seq::<u8>::empty(),
{
    blake3::Hasher::new()
}

/// Relies on blake3::Hasher::update: appends the input to the fed stream.
#[verifier::external_body]
fn hasher_update(h: &mut blake3::Hasher, data: &Vec<u8>)
    ensures
        hasher_fed(*final(h)) == hasher_fed(*old(h)) + data@,
{
    h.update(data.as_slice());
}

/// Relies on blake3::Hasher::finalize and Hash::to_hex: the digest of the
/// fed stream, as 64 lowercase hex characters.
#[verifier::external_body]
fn hasher_finalize_hex(h: &blake3::Hasher) -> (r: String)
    ensures
        r@ == blake3_hex(hasher_fed(*h)),
        r@.len() == 64,
{
    h.finalize().to_hex().as_str().to_owned()
}

/// The views of a file list: each path with its contents.
pub open spec fn file_views(v: Seq<(String, Vec<u8>)>) -> Seq<(Seq<char>, Seq<u8>)> {
    v.map_values(|f: (String, Vec<u8>)| (f.0@, f.1@))
}

/// Whether a path's extension is one of the configured set.
pub open spec fn ext_matches(p: Seq<char>, exts: Seq<Seq<char>>) -> bool {
    exists|i: int| 0 <= i < exts.len() && ext_of(p) == Some(#[trigger] exts[i])
}

/// The files of the tree whose extension is in the configured set, in
/// enumeration order.
pub open spec fn filter_spec(fs: Seq<(Seq<char>, Seq<u8>)>, exts: Seq<Seq<char>>) -> Seq<
    (Seq<char>, Seq<u8>),
>
    decreases fs.len(),
{
    if fs.len() == 0 {
        Seq::empty()
    } else {
        let rest = filter_spec(fs.drop_last(), exts);
        if ext_matches(fs.last().0, exts) {
            rest.push(fs.last())
        } else {
            rest
        }
    }
}

/// Inserting a file into a path-sorted list, after any file of equal path.
pub open spec fn insert_sorted(
    f: (Seq<char>, Seq<u8>),
    sorted: Seq<(Seq<char>, Seq<u8>)>,
) -> Seq<(Seq<char>, Seq<u8>)>
    decreases sorted.len(),
{
    if sorted.len() == 0 {
        seq![f]
    } else if str_lt(f.0, sorted[0].0) {
        seq![f].add(sorted)
    } else {
        seq![sorted[0]].add(insert_sorted(f, sorted.skip(1)))
    }
}

/// The file list in lexicographic path order, by insertion.
pub open spec fn sort_spec(fs: Seq<(Seq<char>, Seq<u8>)>) -> Seq<(Seq<char>, Seq<u8>)>
    decreases fs.len(),
{
    if fs.len() == 0 {
        Seq::empty()
    } else {
        insert_sorted(fs.last(), sort_spec(fs.drop_last()))
    }
}

/// The concatenation of the files' contents, in list order.
pub open spec fn concat_contents(fs: Seq<(Seq<char>, Seq<u8>)>) -> Seq<u8>
    decreases fs.len(),
{
    if fs.len() == 0 {
        Seq::empty()
    } else {
        concat_contents(fs.drop_last()) + fs.last().1
    }
}

/// The truncated digest of a source tree: the blake3 hex digest of the
/// matching files' contents, concatenated in lexicographic path order, cut
/// to `len` characters (the digest's own 64 at most).
pub open spec fn hash_spec(
    fs: Seq<(Seq<char>, Seq<u8>)>,
    exts: Seq<Seq<char>>,
    len: int,
) -> Seq<char> {
    let hex = blake3_hex(concat_contents(sort_spec(filter_spec(fs, exts))));
    if len <= 64 {
        hex.take(len)
    } else {
        hex
    }
}

/// Whether a path-sorted list is in lexicographic order.
pub open spec fn sorted_by_path(fs: Seq<(Seq<char>, Seq<u8>)>) -> bool {
    forall|j: int, k: int| 0 <= j < k < fs.len() ==> !str_lt(fs[k].0, fs[j].0)
}

/// Inserting at the first position whose path the new file precedes is
/// exactly the recursive insertion.
proof fn lemma_insert_at(f: (Seq<char>, Seq<u8>), ss: Seq<(Seq<char>, Seq<u8>)>, p: int)
    requires
        0 <= p <= ss.len(),
        forall|j: int| 0 <= j < p ==> !str_lt(f.0, (#[trigger] ss[j]).0),
        p < ss.len() ==> str_lt(f.0, ss[p].0),
    ensures
        insert_sorted(f, ss) == ss.insert(p, f),
    decreases p,
{
    if ss.len() == 0 {
        assert(insert_sorted(f, ss) =~= ss.insert(0, f));
    } else if p == 0 {
        assert(insert_sorted(f, ss) =~= ss.insert(0, f));
    } else {
        assert forall|j: int| 0 <= j < p - 1 implies !str_lt(f.0, (#[trigger] ss.skip(1)[j]).0) by {
            assert(ss.skip(1)[j] == ss[j + 1]);
        }
        if p - 1 < ss.skip(1).len() {
            assert(ss.skip(1)[p - 1] == ss[p]);
        }
        lemma_insert_at(f, ss.skip(1), p - 1);
        assert(insert_sorted(f, ss) =~= ss.insert(p, f));
    }
}

/// Insertion keeps a path-sorted list sorted.
proof fn lemma_insert_keeps_sorted(f: (Seq<char>, Seq<u8>), ss: Seq<(Seq<char>, Seq<u8>)>, p: int)
    requires
        sorted_by_path(ss),
        0 <= p <= ss.len(),
        forall|j: int| 0 <= j < p ==> !str_lt(f.0, (#[trigger] ss[j]).0),
        p < ss.len() ==> str_lt(f.0, ss[p].0),
    ensures
        sorted_by_path(ss.insert(p, f)),
{
    let out = ss.insert(p, f);
    assert forall|j: int, k: int| 0 <= j < k < out.len() implies !str_lt(out[k].0, out[j].0) by {
        if j < p && k < p {
            assert(out[j] == ss[j] && out[k] == ss[k]);
        } else if j < p && k == p {
            assert(out[j] == ss[j] && out[k] == f);
        } else if j < p && k > p {
            assert(out[j] == ss[j] && out[k] == ss[k - 1]);
        } else if j == p && k > p {
            assert(out[j] == f && out[k] == ss[k - 1]);
            if str_lt(ss[k - 1].0, f.0) {
                assert(p <= k - 1 < ss.len());
                assert(str_lt(f.0, ss[p].0));
                if k - 1 == p {
                    lemma_lex_trans(codes(ss[p].0), codes(f.0), codes(ss[p].0));
                    crate::pattern::lemma_lex_irrefl(codes(ss[p].0));
                } else {
                    assert(!str_lt(ss[k - 1].0, ss[p].0));
                    lemma_lex_trans(codes(ss[k - 1].0), codes(f.0), codes(ss[p].0));
                    crate::pattern::lemma_lex_irrefl(codes(ss[k - 1].0));
                }
            }
        } else {
            assert(out[j] == ss[j - 1] && out[k] == ss[k - 1]);
        }
    }
}

/// The index list of files picked so far, as their views.
pub open spec fn picks(order: Seq<usize>, fsv: Seq<(Seq<char>, Seq<u8>)>) -> Seq<
    (Seq<char>, Seq<u8>),
> {
    order.map(|k: int, v: usize| fsv[v as int])
}

/// Whether a path's extension is one of the configured set.
fn has_matching_ext(path: &str, exts: &Vec<String>) -> (r: bool)
    ensures
        r == ext_matches(path@, views_of(exts@)),
{
    let e = match extension_of(path) {
        Some(e) => e,
        None => {
            proof {
                assert forall|i: int|
                    0 <= i < views_of(exts@).len() implies ext_of(path@) != Some(
                    #[trigger] views_of(exts@)[i],
                ) by {}
            }
            return false;
        },
    };
    let mut i: usize = 0;
    while i < exts.len()
        invariant
            0 <= i <= exts.len(),
            ext_of(path@) == Some(e@),
            forall|j: int| 0 <= j < i ==> Some(#[trigger] views_of(exts@)[j]) != ext_of(path@),
        decreases exts.len() - i,
    {
        proof {
            assert(views_of(exts@)[i as int] == exts@[i as int]@);
        }
        if e == exts[i] {
            return true;
        }
        i += 1;
    }
    false
}

/// The deterministic content digest of a source tree: the files whose
/// extension is in `exts`, ordered by path, their bytes folded through
/// blake3, the hex digest truncated to `len` characters. The order is fixed
/// by the paths alone, so unchanged content always hashes the same.
pub fn calc_hash_for_files(files: &Vec<(String, Vec<u8>)>, exts: &Vec<String>, len: usize) -> (r:
    String)
    ensures
        r@ == hash_spec(file_views(files@), views_of(exts@), len as int),
{
    let ghost fsv = file_views(files@);
    let ghost ev = views_of(exts@);
    let mut order: Vec<usize> = Vec::new();
    let mut i: usize = 0;
    proof {
        assert(file_views(files@.take(0)) =~= Seq::<(Seq<char>, Seq<u8>)>::empty());
        assert(picks(order@, fsv) =~= Seq::<(Seq<char>, Seq<u8>)>::empty());
    }
    while i < files.len()
        invariant
            0 <= i <= files.len(),
            fsv == file_views(files@),
            ev == views_of(exts@),
            fsv.len() == files.len(),
            forall|k: int| 0 <= k < order@.len() ==> (#[trigger] order@[k]) < files.len(),
            picks(order@, fsv) == sort_spec(filter_spec(file_views(files@.take(i as int)), ev)),
            sorted_by_path(picks(order@, fsv)),
        decreases files.len() - i,
    {
        proof {
            assert(file_views(files@.take(i + 1)).drop_last() =~= file_views(
                files@.take(i as int),
            ));
            assert(file_views(files@.take(i + 1)).last() == (
                files@[i as int].0@,
                files@[i as int].1@,
            ));
            assert(fsv[i as int] == (files@[i as int].0@, files@[i as int].1@));
        }
        if has_matching_ext(files[i].0.as_str(), exts) {
            let ghost sel = picks(order@, fsv);
            let mut p: usize = 0;
            while p < order.len() && !str_before(
                files[i].0.as_str(),
                files[order[p]].0.as_str(),
            )
                invariant
                    0 <= p <= order.len(),
                    fsv == file_views(files@),
                    fsv.len() == files.len(),
                    0 <= i < files.len(),
                    sel == picks(order@, fsv),
                    sel.len() == order@.len(),
                    fsv[i as int] == (files@[i as int].0@, files@[i as int].1@),
                    forall|k: int| 0 <= k < order@.len() ==> (#[trigger] order@[k]) < files.len(),
                    forall|j: int|
                        0 <= j < p ==> !str_lt(fsv[i as int].0, (#[trigger] sel[j]).0),
                decreases order.len() - p,
            {
                proof {
                    assert(sel[p as int] == fsv[order@[p as int] as int]);
                }
                p += 1;
            }
            proof {
                if p < order.len() {
                    assert(sel[p as int] == fsv[order@[p as int] as int]);
                }
                lemma_insert_at(fsv[i as int], sel, p as int);
                lemma_insert_keeps_sorted(fsv[i as int], sel, p as int);
            }
            order.insert(p, i);
            proof {
                assert(picks(order@, fsv) =~= sel.insert(p as int, fsv[i as int]));
                let fv0 = file_views(files@.take(i as int));
                let fv1 = file_views(files@.take(i + 1));
                assert(fv1.drop_last() =~= fv0);
                assert(ext_matches(fv1.last().0, ev));
                assert(filter_spec(fv1, ev) == filter_spec(fv0, ev).push(fsv[i as int]));
                assert(filter_spec(fv1, ev).drop_last() =~= filter_spec(fv0, ev));
                assert(filter_spec(fv1, ev).len() >= 1);
                assert(filter_spec(fv1, ev).last() == fsv[i as int]);
                assert(sort_spec(filter_spec(fv1, ev)) == insert_sorted(
                    fsv[i as int],
                    sort_spec(filter_spec(fv0, ev)),
                ));
            }
        } else {
            proof {
                let fv0 = file_views(files@.take(i as int));
                let fv1 = file_views(files@.take(i + 1));
                assert(fv1.drop_last() =~= fv0);
                assert(!ext_matches(fv1.last().0, ev));
                assert(filter_spec(fv1, ev) == filter_spec(fv0, ev));
            }
        }
        i += 1;
    }
    proof {
        assert(files@.take(files@.len() as int) =~= files@);
    }
    let ghost sorted = picks(order@, fsv);
    let mut h = hasher_new();
    let mut j: usize = 0;
    while j < order.len()
        invariant
            0 <= j <= order.len(),
            fsv == file_views(files@),
            fsv.len() == files.len(),
            sorted == picks(order@, fsv),
            forall|k: int| 0 <= k < order@.len() ==> (#[trigger] order@[k]) < files.len(),
            hasher_fed(h) == concat_contents(sorted.take(j as int)),
        decreases order.len() - j,
    {
        proof {
            assert(sorted.take(j + 1).drop_last() =~= sorted.take(j as int));
            assert(sorted.take(j + 1).last() == fsv[order@[j as int] as int]);
            assert(fsv[order@[j as int] as int].1 == files@[order@[j as int] as int].1@);
        }
        hasher_update(&mut h, &files[order[j]].1);
        j += 1;
    }
    proof {
        assert(sorted.take(order@.len() as int) =~= sorted);
    }
    let hex = hasher_finalize_hex(&h);
    if len < 64 {
        let out = hex.as_str().substring_char(0, len).to_owned();
        proof {
            assert(hex@.subrange(0, len as int) =~= hex@.take(len as int));
        }
        out
    } else {
        proof {
            assert(hex@.take(64) =~= hex@);
        }
        hex
    }
}

/// The project digest: script sources and JSON files, sixteen hex characters.
pub fn calc_hash_for_project(files: &Vec<(String, Vec<u8>)>) -> (r: String)
    ensures
        r@ == hash_spec(file_views(files@), seq!["ts"@, "json"@], 16),
{
    let exts: Vec<String> = vec!["ts".to_owned(), "json".to_owned()];
    let r = calc_hash_for_files(files, &exts, 16);
    proof {
        assert(views_of(exts@) =~= seq!["ts"@, "json"@]);
    }
    r
}

/// The artifact path of a digest's bundled module.
pub open spec fn module_path_spec(h: Seq<char>) -> Seq<char> {
    ".build/"@ + h + ".mjs"@
}

/// The artifact path of a digest's routing-configuration copy.
pub open spec fn config_path_spec(h: Seq<char>) -> Seq<char> {
    ".build/"@ + h + ".yml"@
}

/// What one build run does: reuse the artifact already at the digest's path,
/// or run the bundler and persist the module beside a configuration copy.
#[derive(Debug)]
pub enum BuildPlan {
    /// The artifact exists: return its path, bundle nothing, write nothing.
    CacheHit(String),
    /// Bundle, then persist the module and the configuration copy at these
    /// paths.
    Rebuild(String, String),
}

/// The mathematical shape of a build plan.
pub enum BuildPlanView {
    CacheHit(Seq<char>),
    Rebuild(Seq<char>, Seq<char>),
}

impl View for BuildPlan {
    type V = BuildPlanView;

    open spec fn view(&self) -> BuildPlanView {
        match self {
            BuildPlan::CacheHit(m) => BuildPlanView::CacheHit(m@),
            BuildPlan::Rebuild(m, c) => BuildPlanView::Rebuild(m@, c@),
        }
    }
}

/// The plan a digest determines: a cache hit exactly when the artifact is
/// already in place.
pub open spec fn plan_spec(h: Seq<char>, artifact_exists: bool) -> BuildPlanView {
    if artifact_exists {
        BuildPlanView::CacheHit(module_path_spec(h))
    } else {
        BuildPlanView::Rebuild(module_path_spec(h), config_path_spec(h))
    }
}

/// Decides one build run from the tree's digest and whether the
/// content-addressed artifact is already present.
pub fn plan_build(hash: &str, artifact_exists: bool) -> (r: BuildPlan)
    ensures
        r@ == plan_spec(hash@, artifact_exists),
{
    let mut m = ".build/".to_owned();
    m.append(hash);
    m.append(".mjs");
    if artifact_exists {
        BuildPlan::CacheHit(m)
    } else {
        let mut c = ".build/".to_owned();
        c.append(hash);
        c.append(".yml");
        BuildPlan::Rebuild(m, c)
    }
}

/// Build-cache idempotence: an unchanged source tree hashes to the same
/// digest both times, so a second build, finding the first one's artifact at
/// that digest's path, is a cache hit on exactly the path the first build
/// produced and performs no bundle step and no write.
pub proof fn lemma_build_cache_idempotent(
    fs: Seq<(Seq<char>, Seq<u8>)>,
    exts: Seq<Seq<char>>,
    len: int,
    first: BuildPlanView,
    second: BuildPlanView,
)
    requires
        first == plan_spec(hash_spec(fs, exts, len), false),
        second == plan_spec(hash_spec(fs, exts, len), true),
    ensures
        first is Rebuild,
        second is CacheHit,
        second->CacheHit_0 == first->Rebuild_0,
{
}

} // verus!

//! Path patterns: the route grammar of literal segments, named parameter
//! segments and one trailing wildcard, together with the segment-splitting of
//! concrete request paths that matching is defined over.

use vstd::prelude::*;

verus! {

/// The views of a sequence of strings.
pub open spec fn views_of(v: Seq<String>) -> Seq<Seq<char>> {
    v.map_values(|t: String| t@)
}

/// Splitting a character sequence at every `/`. The result always has one
/// more element than the text has slashes; an empty text yields one empty
/// segment.
pub open spec fn split_segs(s: Seq<char>) -> Seq<Seq<char>>
    decreases s.len(),
{
    if s.len() == 0 {
        seq![Seq::<char>::empty()]
    } else if s[0] == '/' {
        seq![Seq::<char>::empty()].add(split_segs(s.skip(1)))
    } else {
        let rest = split_segs(s.skip(1));
        seq![seq![s[0]].add(rest[0])].add(rest.skip(1))
    }
}

/// Splitting never yields an empty list of segments.
pub proof fn lemma_split_nonempty(s: Seq<char>)
    ensures
        split_segs(s).len() >= 1,
    decreases s.len(),
{
    if s.len() != 0 {
        lemma_split_nonempty(s.skip(1));
    }
}

/// Appending one character either extends the final segment or, for a slash,
/// opens a new empty one.
pub proof fn lemma_split_push(s: Seq<char>, c: char)
    ensures
        c == '/' ==> split_segs(s.push(c)) == split_segs(s).push(Seq::<char>::empty()),
        c != '/' ==> split_segs(s.push(c)) == split_segs(s).update(
            split_segs(s).len() - 1,
            split_segs(s).last().push(c),
        ),
    decreases s.len(),
{
    lemma_split_nonempty(s);
    if s.len() == 0 {
        assert(s.push(c).skip(1) =~= Seq::<char>::empty());
        if c == '/' {
            assert(s.push(c)[0] == c);
            assert(split_segs(s) == seq![Seq::<char>::empty()]);
            assert(split_segs(s.push(c)) == seq![Seq::<char>::empty()].add(
                split_segs(s.push(c).skip(1)),
            ));
            assert(split_segs(s.push(c)) =~= split_segs(s).push(Seq::<char>::empty()));
        } else {
            assert(seq![s.push(c)[0]].add(split_segs(s.push(c).skip(1))[0]) =~= seq![c]);
            assert(split_segs(s.push(c)) =~= split_segs(s).update(
                split_segs(s).len() - 1,
                split_segs(s).last().push(c),
            ));
        }
    } else {
        let t = s.skip(1);
        assert(s.push(c).skip(1) =~= t.push(c));
        lemma_split_push(t, c);
        lemma_split_nonempty(t);
        if c == '/' {
            if s[0] == '/' {
                assert(split_segs(s.push(c)) =~= split_segs(s).push(Seq::<char>::empty()));
            } else {
                let rest = split_segs(t);
                let restp = split_segs(t.push(c));
                assert(restp[0] == rest[0]);
                assert(restp.skip(1) =~= rest.skip(1).push(Seq::<char>::empty()));
                assert(split_segs(s.push(c)) =~= split_segs(s).push(Seq::<char>::empty()));
            }
        } else {
            let rest = split_segs(t);
            let restp = split_segs(t.push(c));
            if s[0] == '/' {
                assert(s.push(c)[0] == '/');
                assert(split_segs(s.push(c)) == seq![Seq::<char>::empty()].add(restp));
                assert(split_segs(s) == seq![Seq::<char>::empty()].add(rest));
                assert(split_segs(s).last() == rest.last());
                assert(restp == rest.update(rest.len() - 1, rest.last().push(c)));
                assert(seq![Seq::<char>::empty()].add(restp) =~= seq![Seq::<char>::empty()].add(
                    rest,
                ).update(rest.len() as int, rest.last().push(c)));
                assert(split_segs(s).len() - 1 == rest.len());
                assert(split_segs(s.push(c)) == split_segs(s).update(
                    split_segs(s).len() - 1,
                    split_segs(s).last().push(c),
                ));
            } else {
                assert(s.push(c)[0] == s[0]);
                if rest.len() == 1 {
                    assert(restp[0] == rest[0].push(c));
                    assert(restp.skip(1) =~= rest.skip(1));
                    assert(split_segs(s.push(c)) =~~= split_segs(s).update(
                        split_segs(s).len() - 1,
                        split_segs(s).last().push(c),
                    ));
                } else {
                    assert(restp[0] == rest[0]);
                    assert(restp.skip(1) =~= rest.skip(1).update(
                        rest.skip(1).len() - 1,
                        rest.skip(1).last().push(c),
                    ));
                    assert(split_segs(s.push(c)) =~~= split_segs(s).update(
                        split_segs(s).len() - 1,
                        split_segs(s).last().push(c),
                    ));
                }
            }
        }
    }
}

/// Splits a path into its `/`-separated segments.
pub fn split_path(s: &str) -> (r: Vec<String>)
    ensures
        views_of(r@) == split_segs(s@),
{
    let len = s.unicode_len();
    let mut segs: Vec<String> = Vec::new();
    let mut start: usize = 0;
    let mut i: usize = 0;
    proof {
        assert(s@.take(0) =~= Seq::<char>::empty());
        assert(s@.subrange(0, 0) =~= Seq::<char>::empty());
    }
    while i < len
        invariant
            0 <= start <= i <= len,
            len == s@.len(),
            split_segs(s@.take(i as int)) == views_of(segs@).push(
                s@.subrange(start as int, i as int),
            ),
        decreases len - i,
    {
        let c = s.get_char(i);
        proof {
            lemma_split_push(s@.take(i as int), s@[i as int]);
            assert(s@.take(i + 1) =~= s@.take(i as int).push(s@[i as int]));
            lemma_split_nonempty(s@.take(i as int));
        }
        if c == '/' {
            let piece = s.substring_char(start, i).to_owned();
            proof {
                let old_views = views_of(segs@).push(s@.subrange(start as int, i as int));
                assert(split_segs(s@.take(i + 1)) =~= old_views.push(Seq::<char>::empty()));
                assert(views_of(segs@.push(piece)) =~= views_of(segs@).push(piece@));
            }
            segs.push(piece);
            start = i + 1;
            proof {
                assert(s@.subrange(start as int, start as int) =~= Seq::<char>::empty());
                assert(split_segs(s@.take(i + 1)) =~= views_of(segs@).push(
                    s@.subrange(start as int, (i + 1) as int),
                ));
            }
        } else {
            proof {
                let old_views = views_of(segs@).push(s@.subrange(start as int, i as int));
                assert(old_views.last() == s@.subrange(start as int, i as int));
                assert(s@.subrange(start as int, i + 1) =~= s@.subrange(
                    start as int,
                    i as int,
                ).push(s@[i as int]));
                assert(split_segs(s@.take(i + 1)) =~= views_of(segs@).push(
                    s@.subrange(start as int, (i + 1) as int),
                ));
            }
        }
        i += 1;
    }
    let piece = s.substring_char(start, len).to_owned();
    proof {
        assert(s@.take(len as int) =~= s@);
        assert(views_of(segs@.push(piece)) =~= views_of(segs@).push(piece@));
    }
    segs.push(piece);
    segs
}

/// One segment of a path pattern.
#[derive(Debug, Clone)]
pub enum Segment {
    /// Matches exactly its own text.
    Literal(String),
    /// Matches any single path segment and binds it under the given name.
    Param(String),
    /// Matches all remaining path segments; only allowed in last position.
    Wildcard(String),
}

/// The mathematical shape of a pattern segment.
pub enum SegView {
    Lit(Seq<char>),
    Par(Seq<char>),
    Wild(Seq<char>),
}

impl View for Segment {
    type V = SegView;

    open spec fn view(&self) -> SegView {
        match self {
            Segment::Literal(s) => SegView::Lit(s@),
            Segment::Param(s) => SegView::Par(s@),
            Segment::Wildcard(s) => SegView::Wild(s@),
        }
    }
}

/// How one piece of a pattern string reads as a segment: `{name}` is a
/// parameter, `{*name}` a wildcard, anything else a literal.
pub open spec fn seg_view_of(p: Seq<char>) -> SegView {
    if p.len() >= 2 && p[0] == '{' && p[p.len() - 1] == '}' {
        let inner = p.subrange(1, p.len() - 1);
        if inner.len() >= 1 && inner[0] == '*' {
            SegView::Wild(inner.skip(1))
        } else {
            SegView::Par(inner)
        }
    } else {
        SegView::Lit(p)
    }
}

/// The segments a pattern string denotes.
pub open spec fn pattern_view_of(s: Seq<char>) -> Seq<SegView> {
    split_segs(s).map_values(|p: Seq<char>| seg_view_of(p))
}

/// A well-formed pattern has its wildcard, if any, in the last position.
pub open spec fn wf_pattern(pv: Seq<SegView>) -> bool {
    forall|i: int| 0 <= i < pv.len() - 1 ==> !(pv[i] is Wild)
}

/// A pattern string is accepted when it starts with a slash and any wildcard
/// stands last.
pub open spec fn pattern_ok(s: Seq<char>) -> bool {
    s.len() >= 1 && s[0] == '/' && wf_pattern(pattern_view_of(s))
}

/// A parsed, well-formed path pattern.
#[derive(Debug, Clone)]
pub struct Pattern {
    pub segs: Vec<Segment>,
}

impl View for Pattern {
    type V = Seq<SegView>;

    open spec fn view(&self) -> Seq<SegView> {
        self.segs@.map_values(|g: Segment| g@)
    }
}

/// Reads one piece of a pattern string as a segment.
fn parse_segment(piece: &str) -> (r: Segment)
    ensures
        r@ == seg_view_of(piece@),
{
    let n = piece.unicode_len();
    if n >= 2 && piece.get_char(0) == '{' && piece.get_char(n - 1) == '}' {
        let inner = piece.substring_char(1, n - 1);
        let in_len = inner.unicode_len();
        if in_len >= 1 && inner.get_char(0) == '*' {
            let name = inner.substring_char(1, in_len).to_owned();
            proof {
                assert(inner@.subrange(1, inner@.len() as int) =~= inner@.skip(1));
            }
            Segment::Wildcard(name)
        } else {
            Segment::Param(inner.to_owned())
        }
    } else {
        Segment::Literal(piece.to_owned())
    }
}

impl Pattern {
    /// Parses a pattern string; rejects a missing leading slash or a wildcard
    /// anywhere but the last segment.
    pub fn parse(path: &str) -> (r: Result<Pattern, crate::error::AppError>)
        ensures
            r is Ok <==> pattern_ok(path@),
            r matches Ok(p) ==> p@ == pattern_view_of(path@),
            r matches Err(e) ==> e@ == crate::error::AppErrorView::InvalidPattern(path@),
    {
        if path.unicode_len() < 1 || path.get_char(0) != '/' {
            return Err(crate::error::AppError::InvalidPattern(path.to_owned()));
        }
        let pieces = split_path(path);
        let mut segs: Vec<Segment> = Vec::new();
        let mut i: usize = 0;
        while i < pieces.len()
            invariant
                0 <= i <= pieces.len(),
                views_of(pieces@) == split_segs(path@),
                segs@.len() == i,
                forall|j: int| 0 <= j < i ==> #[trigger] segs@[j]@ == seg_view_of(pieces@[j]@),
            decreases pieces.len() - i,
        {
            let g = parse_segment(pieces[i].as_str());
            segs.push(g);
            i += 1;
        }
        proof {
            assert forall|j: int| 0 <= j < segs@.len() implies #[trigger] segs@[j]@
                == pattern_view_of(path@)[j] by {
                assert(views_of(pieces@)[j] == pieces@[j]@);
            }
        }
        let p = Pattern { segs };
        proof {
            assert(p@ =~= pattern_view_of(path@));
        }
        proof {
            lemma_split_nonempty(path@);
        }
        let mut k: usize = 0;
        while k < p.segs.len() - 1
            invariant
                p.segs.len() >= 1,
                0 <= k <= p.segs.len() - 1,
                p@ == pattern_view_of(path@),
                p@.len() == p.segs.len(),
                forall|j: int| 0 <= j < k ==> !(#[trigger] p@[j] is Wild),
            decreases p.segs.len() - k,
        {
            let is_wild = match &p.segs[k] {
                Segment::Wildcard(_) => true,
                _ => false,
            };
            if is_wild {
                proof {
                    assert(p@[k as int] == p.segs@[k as int]@);
                    assert(!wf_pattern(p@));
                }
                return Err(crate::error::AppError::InvalidPattern(path.to_owned()));
            }
            proof {
                assert(p@[k as int] == p.segs@[k as int]@);
            }
            k += 1;
        }
        Ok(p)
    }
}

/// Whether a pattern ends in a wildcard segment.
pub open spec fn has_wild(p: Seq<SegView>) -> bool {
    p.len() >= 1 && p.last() is Wild
}

/// Whether one pattern segment accepts one path segment.
pub open spec fn seg_matches(g: SegView, t: Seq<char>) -> bool {
    match g {
        SegView::Lit(l) => l == t,
        SegView::Par(_) => true,
        SegView::Wild(_) => true,
    }
}

/// Whether a pattern matches a segmented path: without a wildcard the lengths
/// agree and every segment accepts; with a trailing wildcard the path is at
/// least as long and the wildcard swallows the remainder.
pub open spec fn is_match(p: Seq<SegView>, ts: Seq<Seq<char>>) -> bool {
    if has_wild(p) {
        ts.len() >= p.len() && forall|i: int| 0 <= i < p.len() - 1 ==> seg_matches(p[i], ts[i])
    } else {
        ts.len() == p.len() && forall|i: int| 0 <= i < p.len() ==> seg_matches(p[i], ts[i])
    }
}

/// Precedence rank of a segment: literals bind tighter than parameters, which
/// bind tighter than a wildcard.
pub open spec fn kind_of(g: SegView) -> int {
    match g {
        SegView::Lit(_) => 0,
        SegView::Par(_) => 1,
        SegView::Wild(_) => 2,
    }
}

/// The precedence ranks of a pattern's segments, in order.
pub open spec fn kinds(p: Seq<SegView>) -> Seq<int> {
    p.map_values(|g: SegView| kind_of(g))
}

/// Lexicographic order on precedence ranks; a pattern that runs out of
/// segments first ranks higher.
pub open spec fn lex_lt(a: Seq<int>, b: Seq<int>) -> bool
    decreases a.len(),
{
    if b.len() == 0 {
        false
    } else if a.len() == 0 {
        true
    } else if a[0] < b[0] {
        true
    } else if a[0] > b[0] {
        false
    } else {
        lex_lt(a.skip(1), b.skip(1))
    }
}

/// Two patterns are equivalent when they capture exactly the same paths: same
/// shape, same literals, parameter and wildcard names free.
pub open spec fn equivalent(a: Seq<SegView>, b: Seq<SegView>) -> bool {
    a.len() == b.len() && forall|i: int| 0 <= i < a.len() ==> kind_of(a[i]) == kind_of(b[i]) && (
    a[i] is Lit ==> a[i]->Lit_0 == b[i]->Lit_0)
}

/// Lexicographic order is irreflexive.
pub proof fn lemma_lex_irrefl(a: Seq<int>)
    ensures
        !lex_lt(a, a),
    decreases a.len(),
{
    if a.len() > 0 {
        lemma_lex_irrefl(a.skip(1));
    }
}

/// Lexicographic order is transitive.
pub proof fn lemma_lex_trans(a: Seq<int>, b: Seq<int>, c: Seq<int>)
    requires
        lex_lt(a, b),
        lex_lt(b, c),
    ensures
        lex_lt(a, c),
    decreases a.len() + b.len() + c.len(),
{
    if a.len() > 0 && b.len() > 0 && c.len() > 0 && a[0] == b[0] && b[0] == c[0] {
        lemma_lex_trans(a.skip(1), b.skip(1), c.skip(1));
    }
}

/// Lexicographic order is total: two rank sequences compare one way, the
/// other, or are equal.
pub proof fn lemma_lex_total(a: Seq<int>, b: Seq<int>)
    ensures
        lex_lt(a, b) || lex_lt(b, a) || a == b,
    decreases a.len(),
{
    if a.len() == 0 && b.len() == 0 {
        assert(a =~= b);
    } else if a.len() > 0 && b.len() > 0 && a[0] == b[0] {
        lemma_lex_total(a.skip(1), b.skip(1));
        if !lex_lt(a.skip(1), b.skip(1)) && !lex_lt(b.skip(1), a.skip(1)) {
            let ta = a.skip(1);
            let tb = b.skip(1);
            assert(ta == tb);
            assert forall|j: int| 0 <= j < a.len() implies a[j] == b[j] by {
                if j > 0 {
                    assert(a[j] == ta[j - 1]);
                    assert(b[j] == tb[j - 1]);
                }
            }
            assert(a =~= b);
        }
    }
}

/// Restricting to an equal prefix does not change the lexicographic verdict.
pub proof fn lemma_lex_skip_prefix(a: Seq<int>, b: Seq<int>, i: int)
    requires
        0 <= i <= a.len(),
        i <= b.len(),
        forall|j: int| 0 <= j < i ==> a[j] == b[j],
    ensures
        lex_lt(a, b) == lex_lt(a.skip(i), b.skip(i)),
    decreases i,
{
    if i == 0 {
        assert(a.skip(0) =~= a);
        assert(b.skip(0) =~= b);
    } else {
        assert(a.skip(1).skip(i - 1) =~= a.skip(i));
        assert(b.skip(1).skip(i - 1) =~= b.skip(i));
        lemma_lex_skip_prefix(a.skip(1), b.skip(1), i - 1);
    }
}

/// Two well-formed patterns that match the same path with the same precedence
/// ranks capture exactly the same paths.
pub proof fn lemma_match_same_kinds(a: Seq<SegView>, b: Seq<SegView>, ts: Seq<Seq<char>>)
    requires
        wf_pattern(a),
        wf_pattern(b),
        is_match(a, ts),
        is_match(b, ts),
        kinds(a) == kinds(b),
    ensures
        equivalent(a, b),
{
    assert(kinds(a).len() == a.len());
    assert(kinds(b).len() == b.len());
    assert(a.len() == b.len());
    assert forall|i: int| 0 <= i < a.len() implies kind_of(a[i]) == kind_of(b[i]) && (a[i] is Lit
        ==> a[i]->Lit_0 == b[i]->Lit_0) by {
        assert(kinds(a)[i] == kind_of(a[i]));
        assert(kinds(b)[i] == kind_of(b[i]));
        if a[i] is Lit {
            if has_wild(a) {
                assert(i < a.len() - 1);
                assert(seg_matches(a[i], ts[i]));
                assert(seg_matches(b[i], ts[i]));
            } else {
                assert(seg_matches(a[i], ts[i]));
                assert(seg_matches(b[i], ts[i]));
            }
        }
    }
}

/// Among well-formed patterns matching the same path, precedence is total:
/// distinct capturing behaviour means one strictly outranks the other.
pub proof fn lemma_match_total(a: Seq<SegView>, b: Seq<SegView>, ts: Seq<Seq<char>>)
    requires
        wf_pattern(a),
        wf_pattern(b),
        is_match(a, ts),
        is_match(b, ts),
        !equivalent(a, b),
    ensures
        lex_lt(kinds(a), kinds(b)) <==> !lex_lt(kinds(b), kinds(a)),
{
    lemma_lex_total(kinds(a), kinds(b));
    if kinds(a) == kinds(b) {
        lemma_match_same_kinds(a, b, ts);
    }
    if lex_lt(kinds(a), kinds(b)) && lex_lt(kinds(b), kinds(a)) {
        lemma_lex_trans(kinds(a), kinds(b), kinds(a));
        lemma_lex_irrefl(kinds(a));
    }
}

/// Joining path segments back together with slashes.
pub open spec fn join_segs(ts: Seq<Seq<char>>) -> Seq<char>
    decreases ts.len(),
{
    if ts.len() == 0 {
        Seq::<char>::empty()
    } else if ts.len() == 1 {
        ts[0]
    } else {
        join_segs(ts.drop_last()).add(seq!['/']).add(ts.last())
    }
}

/// The parameter bindings a match produces, for pattern positions from `i`
/// on: a parameter binds its path segment, a trailing wildcard binds the
/// joined remainder of the path.
pub open spec fn params_from(p: Seq<SegView>, ts: Seq<Seq<char>>, i: int) -> Seq<
    (Seq<char>, Seq<char>),
>
    decreases p.len() - i,
{
    if i < 0 || i >= p.len() {
        Seq::empty()
    } else {
        let rest = params_from(p, ts, i + 1);
        match p[i] {
            SegView::Lit(_) => rest,
            SegView::Par(n) => seq![(n, ts[i])].add(rest),
            SegView::Wild(n) => seq![(n, join_segs(ts.skip(i)))].add(rest),
        }
    }
}

/// All parameter bindings of a match, in pattern order.
pub open spec fn params_of(p: Seq<SegView>, ts: Seq<Seq<char>>) -> Seq<(Seq<char>, Seq<char>)> {
    params_from(p, ts, 0)
}

/// The views of a list of string pairs.
pub open spec fn pair_views(v: Seq<(String, String)>) -> Seq<(Seq<char>, Seq<char>)> {
    v.map_values(|pr: (String, String)| (pr.0@, pr.1@))
}

/// Joins the segments of `ts` from position `k` on with slashes.
fn join_from(ts: &Vec<String>, k: usize) -> (r: String)
    requires
        k <= ts.len(),
    ensures
        r@ == join_segs(views_of(ts@).skip(k as int)),
{
    let ghost vs = views_of(ts@);
    let mut acc = String::new();
    let mut j: usize = k;
    proof {
        reveal_strlit("/");
        assert("/"@ =~= seq!['/']);
        assert(vs.skip(k as int).take(0) =~= Seq::<Seq<char>>::empty());
    }
    while j < ts.len()
        invariant
            k <= j <= ts.len(),
            vs == views_of(ts@),
            vs.len() == ts.len(),
            "/"@ == seq!['/'],
            acc@ == join_segs(vs.skip(k as int).take(j - k)),
        decreases ts.len() - j,
    {
        proof {
            assert(vs.skip(k as int).take(j - k + 1) =~= vs.skip(k as int).take(j - k).push(
                vs[j as int],
            ));
            assert(vs.skip(k as int).take(j - k + 1).drop_last() =~= vs.skip(k as int).take(
                j - k,
            ));
            assert(vs[j as int] == ts@[j as int]@);
        }
        if j == k {
            acc = ts[j].clone();
        } else {
            acc.append("/");
            acc.append(ts[j].as_str());
        }
        j += 1;
    }
    proof {
        assert(vs.skip(k as int).take(ts.len() - k) =~= vs.skip(k as int));
    }
    acc
}

/// Whether one pattern segment accepts one path segment.
fn seg_accepts(g: &Segment, t: &String) -> (r: bool)
    ensures
        r == seg_matches(g@, t@),
{
    match g {
        Segment::Literal(l) => *l == *t,
        Segment::Param(_) => true,
        Segment::Wildcard(_) => true,
    }
}

impl Pattern {
    /// Whether this pattern ends in a wildcard.
    fn ends_in_wildcard(&self) -> (r: bool)
        ensures
            r == has_wild(self@),
    {
        if self.segs.len() == 0 {
            return false;
        }
        proof {
            assert(self@.last() == self.segs@.last()@);
        }
        match &self.segs[self.segs.len() - 1] {
            Segment::Wildcard(_) => true,
            _ => false,
        }
    }

    /// Whether this pattern matches the segmented path.
    pub fn matches_path(&self, ts: &Vec<String>) -> (r: bool)
        ensures
            r == is_match(self@, views_of(ts@)),
    {
        let ghost vs = views_of(ts@);
        let n = self.segs.len();
        let wild = self.ends_in_wildcard();
        let bound: usize = if wild {
            if ts.len() < n {
                return false;
            }
            n - 1
        } else {
            if ts.len() != n {
                return false;
            }
            n
        };
        let mut i: usize = 0;
        while i < bound
            invariant
                0 <= i <= bound <= n,
                n == self.segs.len(),
                vs == views_of(ts@),
                vs.len() == ts.len(),
                wild == has_wild(self@),
                wild ==> bound == n - 1 && ts.len() >= n,
                !wild ==> bound == n && ts.len() == n,
                forall|j: int| 0 <= j < i ==> seg_matches(#[trigger] self@[j], vs[j]),
            decreases bound - i,
        {
            proof {
                assert(self@[i as int] == self.segs@[i as int]@);
                assert(vs[i as int] == ts@[i as int]@);
            }
            if !seg_accepts(&self.segs[i], &ts[i]) {
                return false;
            }
            i += 1;
        }
        true
    }

    /// Precedence rank of the segment at `i`.
    fn kind_code(&self, i: usize) -> (k: u8)
        requires
            i < self.segs.len(),
        ensures
            k as int == kind_of(self@[i as int]),
    {
        proof {
            assert(self@[i as int] == self.segs@[i as int]@);
        }
        match &self.segs[i] {
            Segment::Literal(_) => 0,
            Segment::Param(_) => 1,
            Segment::Wildcard(_) => 2,
        }
    }

    /// Whether this pattern strictly outranks `other` in precedence.
    pub fn outranks(&self, other: &Pattern) -> (r: bool)
        ensures
            r == lex_lt(kinds(self@), kinds(other@)),
    {
        let ghost ka = kinds(self@);
        let ghost kb = kinds(other@);
        let na = self.segs.len();
        let nb = other.segs.len();
        let mut i: usize = 0;
        proof {
            assert(ka.len() == na);
            assert(kb.len() == nb);
        }
        while i < na && i < nb
            invariant
                0 <= i <= na,
                i <= nb,
                na == self.segs.len(),
                nb == other.segs.len(),
                ka == kinds(self@),
                kb == kinds(other@),
                ka.len() == na,
                kb.len() == nb,
                forall|j: int| 0 <= j < i ==> ka[j] == kb[j],
            decreases na - i,
        {
            let ca = self.kind_code(i);
            let cb = other.kind_code(i);
            proof {
                assert(ka[i as int] == kind_of(self@[i as int]));
                assert(kb[i as int] == kind_of(other@[i as int]));
                lemma_lex_skip_prefix(ka, kb, i as int);
            }
            if ca < cb {
                return true;
            }
            if ca > cb {
                return false;
            }
            i += 1;
        }
        proof {
            lemma_lex_skip_prefix(ka, kb, i as int);
        }
        na < nb
    }

    /// The parameter bindings this pattern extracts from a matching path.
    pub fn extract_params(&self, ts: &Vec<String>) -> (r: Vec<(String, String)>)
        requires
            is_match(self@, views_of(ts@)),
        ensures
            pair_views(r@) == params_of(self@, views_of(ts@)),
    {
        let ghost vs = views_of(ts@);
        let n = self.segs.len();
        let mut out: Vec<(String, String)> = Vec::new();
        let mut i: usize = 0;
        proof {
            assert(pair_views(out@) =~= Seq::<(Seq<char>, Seq<char>)>::empty());
        }
        while i < n
            invariant
                0 <= i <= n,
                n == self.segs.len(),
                vs == views_of(ts@),
                vs.len() == ts.len(),
                is_match(self@, vs),
                params_of(self@, vs) == pair_views(out@).add(params_from(self@, vs, i as int)),
            decreases n - i,
        {
            proof {
                assert(self@[i as int] == self.segs@[i as int]@);
                if i < ts.len() {
                    assert(vs[i as int] == ts@[i as int]@);
                }
                if has_wild(self@) {
                    assert(ts.len() >= n);
                } else {
                    assert(ts.len() == n);
                }
            }
            let ghost before = out@;
            match &self.segs[i] {
                Segment::Literal(_) => {},
                Segment::Param(name) => {
                    out.push((name.clone(), ts[i].clone()));
                },
                Segment::Wildcard(name) => {
                    let joined = join_from(ts, i);
                    out.push((name.clone(), joined));
                },
            }
            proof {
                if out@ != before {
                    assert(pair_views(out@) =~= pair_views(before).push(
                        (out@.last().0@, out@.last().1@),
                    ));
                }
                assert(params_of(self@, vs) =~= pair_views(out@).add(
                    params_from(self@, vs, i + 1),
                ));
            }
            i += 1;
        }
        proof {
            assert(params_from(self@, vs, n as int) =~= Seq::<(Seq<char>, Seq<char>)>::empty());
            assert(params_of(self@, vs) =~= pair_views(out@));
        }
        out
    }
}

/// Matching binds parameters to the matched text itself: for every parameter
/// segment of the pattern, the extracted bindings carry that parameter's
/// name paired with the exact path segment standing at its position.
pub proof fn lemma_param_binds_segment(p: Seq<SegView>, ts: Seq<Seq<char>>, i: int)
    requires
        0 <= i < p.len(),
        p[i] is Par,
    ensures
        exists|k: int|
            0 <= k < params_of(p, ts).len() && #[trigger] params_of(p, ts)[k] == (
                p[i]->Par_0,
                ts[i],
            ),
{
    lemma_param_from_binds(p, ts, 0, i);
    let k = choose|k: int|
        0 <= k < params_from(p, ts, 0).len() && #[trigger] params_from(p, ts, 0)[k] == (
            p[i]->Par_0,
            ts[i],
        );
    assert(params_of(p, ts)[k] == (p[i]->Par_0, ts[i]));
}

proof fn lemma_param_from_binds(p: Seq<SegView>, ts: Seq<Seq<char>>, lo: int, i: int)
    requires
        0 <= lo <= i < p.len(),
        p[i] is Par,
    ensures
        exists|k: int|
            0 <= k < params_from(p, ts, lo).len() && #[trigger] params_from(p, ts, lo)[k] == (
                p[i]->Par_0,
                ts[i],
            ),
    decreases p.len() - lo,
{
    let cur = params_from(p, ts, lo);
    let rest = params_from(p, ts, lo + 1);
    if lo == i {
        assert(cur[0] == (p[i]->Par_0, ts[i]));
    } else {
        lemma_param_from_binds(p, ts, lo + 1, i);
        let k = choose|k: int|
            0 <= k < rest.len() && #[trigger] rest[k] == (p[i]->Par_0, ts[i]);
        match p[lo] {
            SegView::Lit(_) => {
                assert(cur[k] == (p[i]->Par_0, ts[i]));
            },
            SegView::Par(_) => {
                assert(cur[k + 1] == (p[i]->Par_0, ts[i]));
            },
            SegView::Wild(_) => {
                assert(cur[k + 1] == (p[i]->Par_0, ts[i]));
            },
        }
    }
}

} // verus!

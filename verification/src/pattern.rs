//! Route patterns: compilation of pattern strings such as
//! `/users/<id:u32>/*rest` into segment matchers, and matching of request
//! paths against them.
//!
//! A pattern is an ordered list of segment matchers: a literal segment
//! (`users`), a named capture (`<id>`), a typed capture (`<id:u32>`, which
//! only matches a segment made of decimal digits whose value fits in a
//! `u32`), or a trailing wildcard (`*rest`, which captures all remaining
//! segments joined with `/`). A wildcard must be the last segment of the
//! pattern. Matching is done against the request path split on `/`, with
//! empty segments dropped, after percent-decoding.

use vstd::prelude::*;
use vstd::string::*;

verus! {

/// The ghost model of one segment matcher.
pub enum SegModel {
    /// Matches exactly this text.
    Literal(Seq<char>),
    /// Matches any one segment, recording it under this name.
    Capture(Seq<char>),
    /// Matches one segment made of digits whose value fits in `u32`,
    /// recording it under this name.
    CaptureU32(Seq<char>),
    /// Matches all remaining segments, recording them joined with `/`
    /// under this name.
    Wildcard(Seq<char>),
}

/// One compiled segment matcher.
pub enum Segment {
    /// Matches exactly this text.
    Literal(String),
    /// Matches any one segment, recording it under this name.
    Capture(String),
    /// Matches one segment made of digits whose value fits in `u32`,
    /// recording it under this name.
    CaptureU32(String),
    /// Matches all remaining segments, recording them joined with `/`
    /// under this name.
    Wildcard(String),
}

impl View for Segment {
    type V = SegModel;

    open spec fn view(&self) -> SegModel {
        match self {
            Segment::Literal(s) => SegModel::Literal(s@),
            Segment::Capture(s) => SegModel::Capture(s@),
            Segment::CaptureU32(s) => SegModel::CaptureU32(s@),
            Segment::Wildcard(s) => SegModel::Wildcard(s@),
        }
    }
}

/// Whether `c` is a decimal digit.
pub open spec fn is_digit(c: char) -> bool {
    48 <= c as int && c as int <= 57
}

/// The numeric value of the digit `c`.
pub open spec fn digit_val(c: char) -> nat {
    (c as int - 48) as nat
}

/// The numeric value of a digit string, read left to right.
pub open spec fn digits_value(s: Seq<char>) -> nat
    decreases s.len(),
{
    if s.len() == 0 {
        0
    } else {
        digits_value(s.drop_last()) * 10 + digit_val(s.last())
    }
}

/// Whether `s` is a non-empty digit string whose value fits in a `u32`.
pub open spec fn is_u32_string(s: Seq<char>) -> bool {
    &&& s.len() > 0
    &&& forall|i: int| 0 <= i < s.len() ==> is_digit(#[trigger] s[i])
    &&& digits_value(s) <= u32::MAX as nat
}

/// The index of the first occurrence of `c` in `s`, or -1 if `c` does not
/// occur.
pub open spec fn find_char(s: Seq<char>, c: char) -> int
    decreases s.len(),
{
    if s.len() == 0 {
        -1
    } else if s[0] == c {
        0
    } else {
        let r = find_char(s.drop_first(), c);
        if r == -1 {
            -1
        } else {
            r + 1
        }
    }
}

/// `s` without its leading spaces.
pub open spec fn skip_spaces(s: Seq<char>) -> Seq<char>
    decreases s.len(),
{
    if s.len() > 0 && s[0] == ' ' {
        skip_spaces(s.drop_first())
    } else {
        s
    }
}

/// How one path-pattern segment is read: `*name` is a wildcard, `<name>`
/// a capture, `<name:u32>` (spaces allowed after the colon) a typed
/// capture, and anything else a literal. An unknown type after the colon
/// is read as a plain capture.
pub open spec fn classify_spec(seg: Seq<char>) -> SegModel {
    if seg.len() > 0 && seg[0] == '*' {
        SegModel::Wildcard(seg.drop_first())
    } else if seg.len() >= 2 && seg[0] == '<' && seg[seg.len() - 1] == '>' {
        let inner = seg.subrange(1, seg.len() - 1);
        let k = find_char(inner, ':');
        if k == -1 {
            SegModel::Capture(inner)
        } else {
            let name = inner.subrange(0, k);
            let ty = skip_spaces(inner.subrange(k + 1, inner.len() as int));
            if ty == seq!['u', '3', '2'] {
                SegModel::CaptureU32(name)
            } else {
                SegModel::Capture(name)
            }
        }
    } else {
        SegModel::Literal(seg)
    }
}

proof fn lemma_find_char_props(s: Seq<char>, c: char)
    ensures
        find_char(s, c) == -1 <==> (forall|i: int| 0 <= i < s.len() ==> s[i] != c),
        find_char(s, c) != -1 ==> {
            let k = find_char(s, c);
            &&& 0 <= k < s.len()
            &&& s[k] == c
            &&& forall|i: int| 0 <= i < k ==> s[i] != c
        },
    decreases s.len(),
{
    if s.len() == 0 {
    } else if s[0] == c {
    } else {
        let t = s.drop_first();
        lemma_find_char_props(t, c);
        assert(forall|i: int| 0 <= i < t.len() ==> #[trigger] t[i] == s[i + 1]);
        let rt = find_char(t, c);
        if rt == -1 {
            assert(forall|i: int| 0 <= i < s.len() ==> s[i] != c) by {
                assert(forall|i: int| 1 <= i < s.len() ==> s[i] == t[i - 1]);
            }
        } else {
            let k = find_char(s, c);
            assert(k == rt + 1);
            assert(s[k] == t[rt]);
            assert(forall|i: int| 0 <= i < k ==> s[i] != c) by {
                assert(forall|i: int| 1 <= i < k ==> s[i] == t[i - 1]);
            }
        }
    }
}

/// The index of the first occurrence of `c` in `s`, or `None`.
fn find_char_exec(s: &str, c: char) -> (r: Option<usize>)
    ensures
        r is Some ==> r->Some_0 == find_char(s@, c),
        r is None ==> find_char(s@, c) == -1,
{
    let n = s.unicode_len();
    let mut i: usize = 0;
    while i < n
        invariant
            0 <= i <= n,
            n == s@.len(),
            forall|k: int| 0 <= k < i ==> s@[k] != c,
        decreases n - i,
    {
        if s.get_char(i) == c {
            proof {
                lemma_find_char_props(s@, c);
            }
            return Some(i);
        }
        i = i + 1;
    }
    proof {
        lemma_find_char_props(s@, c);
    }
    None
}

proof fn lemma_skip_spaces_range(s: Seq<char>, a: int, b: int)
    requires
        0 <= a <= b <= s.len(),
        forall|i: int| a <= i < b ==> s[i] == ' ',
        b == s.len() || s[b] != ' ',
    ensures
        skip_spaces(s.subrange(a, s.len() as int)) == s.subrange(b, s.len() as int),
    decreases b - a,
{
    let tail = s.subrange(a, s.len() as int);
    if a == b {
        if tail.len() > 0 {
            assert(tail[0] == s[a]);
        }
        assert(skip_spaces(tail) == tail);
    } else {
        assert(tail[0] == s[a]);
        assert(tail.drop_first() =~= s.subrange(a + 1, s.len() as int));
        lemma_skip_spaces_range(s, a + 1, b);
    }
}

proof fn lemma_digits_value_monotone(s: Seq<char>, i: int, j: int)
    requires
        0 <= i <= j <= s.len(),
    ensures
        digits_value(s.subrange(0, i)) <= digits_value(s.subrange(0, j)),
    decreases j - i,
{
    if i < j {
        lemma_digits_value_monotone(s, i, j - 1);
        let p = s.subrange(0, j);
        assert(p.drop_last() =~= s.subrange(0, j - 1));
        assert(digits_value(p) == digits_value(p.drop_last()) * 10 + digit_val(p.last()));
    }
}

/// Reads one path-pattern segment into a segment matcher.
pub fn classify(seg: &str) -> (r: Segment)
    ensures
        r@ == classify_spec(seg@),
{
    let n = seg.unicode_len();
    if n > 0 && seg.get_char(0) == '*' {
        let name = seg.substring_char(1, n);
        proof {
            assert(name@ =~= seg@.drop_first());
        }
        Segment::Wildcard(String::from_str(name))
    } else if n >= 2 && seg.get_char(0) == '<' && seg.get_char(n - 1) == '>' {
        let inner = seg.substring_char(1, n - 1);
        let m = inner.unicode_len();
        match find_char_exec(inner, ':') {
            None => Segment::Capture(String::from_str(inner)),
            Some(k) => {
                proof {
                    lemma_find_char_props(inner@, ':');
                }
                let name = inner.substring_char(0, k);
                let mut j: usize = k + 1;
                while j < m && inner.get_char(j) == ' '
                    invariant
                        k + 1 <= j <= m,
                        m == inner@.len(),
                        forall|i: int| k + 1 <= i < j ==> inner@[i] == ' ',
                    decreases m - j,
                {
                    j = j + 1;
                }
                proof {
                    lemma_skip_spaces_range(inner@, k + 1, j as int);
                }
                let ghost ty = skip_spaces(inner@.subrange(k + 1, inner@.len() as int));
                let is_u32_ty = m - j == 3 && inner.get_char(j) == 'u' && inner.get_char(j + 1)
                    == '3' && inner.get_char(j + 2) == '2';
                proof {
                    if is_u32_ty {
                        assert(ty =~= seq!['u', '3', '2']);
                    } else {
                        if m - j == 3 {
                            assert(ty.len() == 3);
                            assert(ty[0] == inner@[j as int]);
                            assert(ty[1] == inner@[j + 1]);
                            assert(ty[2] == inner@[j + 2]);
                            assert(ty != seq!['u', '3', '2']);
                        } else {
                            assert(ty.len() != 3);
                        }
                    }
                }
                if is_u32_ty {
                    Segment::CaptureU32(String::from_str(name))
                } else {
                    Segment::Capture(String::from_str(name))
                }
            },
        }
    } else {
        Segment::Literal(String::from_str(seg))
    }
}

/// Whether `s` is a non-empty string of decimal digits whose value fits
/// in a `u32`.
pub fn is_valid_u32(s: &str) -> (b: bool)
    ensures
        b == is_u32_string(s@),
{
    let n = s.unicode_len();
    if n == 0 {
        return false;
    }
    let mut acc: u64 = 0;
    let mut i: usize = 0;
    while i < n
        invariant
            0 <= i <= n,
            n == s@.len(),
            n > 0,
            forall|k: int| 0 <= k < i ==> is_digit(#[trigger] s@[k]),
            acc == digits_value(s@.subrange(0, i as int)),
            acc <= u32::MAX as u64,
        decreases n - i,
    {
        let c = s.get_char(i);
        let code = c as u32;
        if code < 48 || code > 57 {
            return false;
        }
        let d: u64 = (code - 48) as u64;
        let next: u64 = acc * 10 + d;
        proof {
            let p = s@.subrange(0, i + 1);
            assert(p.drop_last() =~= s@.subrange(0, i as int));
            assert(p.last() == s@[i as int]);
        }
        if next > u32::MAX as u64 {
            proof {
                lemma_digits_value_monotone(s@, i + 1, n as int);
                assert(s@.subrange(0, n as int) =~= s@);
            }
            return false;
        }
        acc = next;
        i = i + 1;
    }
    proof {
        assert(s@.subrange(0, n as int) =~= s@);
    }
    true
}

/// Splitting a path on `/`, dropping empty segments: `cur` is the segment
/// being read.
pub open spec fn split_rec(s: Seq<char>, cur: Seq<char>) -> Seq<Seq<char>>
    decreases s.len(),
{
    if s.len() == 0 {
        if cur.len() == 0 {
            seq![]
        } else {
            seq![cur]
        }
    } else if s[0] == '/' {
        if cur.len() == 0 {
            split_rec(s.drop_first(), seq![])
        } else {
            seq![cur] + split_rec(s.drop_first(), seq![])
        }
    } else {
        split_rec(s.drop_first(), cur.push(s[0]))
    }
}

/// The segments of a path: the path split on `/`, with empty segments
/// dropped, so that `/users//42/` splits into `users`, `42`.
pub open spec fn split_path_spec(s: Seq<char>) -> Seq<Seq<char>> {
    split_rec(s, seq![])
}

/// The views of a sequence of strings.
pub open spec fn strs_view(v: Seq<String>) -> Seq<Seq<char>> {
    Seq::new(v.len(), |i: int| v[i]@)
}

/// Splits a path on `/`, dropping empty segments.
pub fn split_path(path: &str) -> (r: Vec<String>)
    ensures
        strs_view(r@) == split_path_spec(path@),
{
    let n = path.unicode_len();
    let mut result: Vec<String> = Vec::new();
    let mut seg_start: usize = 0;
    let mut i: usize = 0;
    proof {
        assert(path@.skip(0) =~= path@);
        assert(path@.subrange(0, 0) =~= Seq::<char>::empty());
        assert(strs_view(result@) + split_rec(path@, Seq::<char>::empty()) =~= split_rec(
            path@,
            Seq::<char>::empty(),
        ));
    }
    while i < n
        invariant
            0 <= seg_start <= i <= n,
            n == path@.len(),
            split_path_spec(path@) == strs_view(result@) + split_rec(
                path@.skip(i as int),
                path@.subrange(seg_start as int, i as int),
            ),
        decreases n - i,
    {
        let ghost pre = path@.skip(i as int);
        let ghost cur = path@.subrange(seg_start as int, i as int);
        proof {
            assert(pre[0] == path@[i as int]);
            assert(pre.drop_first() =~= path@.skip(i + 1));
        }
        let c = path.get_char(i);
        if c == '/' {
            if i > seg_start {
                let seg = path.substring_char(seg_start, i);
                result.push(String::from_str(seg));
                proof {
                    assert(split_rec(pre, cur) == seq![cur] + split_rec(
                        path@.skip(i + 1),
                        seq![],
                    ));
                    assert(strs_view(result@) =~= strs_view(result@.drop_last()) + seq![cur]);
                    assert(strs_view(result@.drop_last()) + (seq![cur] + split_rec(
                        path@.skip(i + 1),
                        seq![],
                    )) =~= strs_view(result@) + split_rec(path@.skip(i + 1), seq![]));
                }
            } else {
                proof {
                    assert(cur =~= Seq::<char>::empty());
                    assert(split_rec(pre, cur) == split_rec(path@.skip(i + 1), seq![]));
                }
            }
            seg_start = i + 1;
            proof {
                assert(path@.subrange(seg_start as int, i + 1) =~= Seq::<char>::empty());
            }
        } else {
            proof {
                assert(split_rec(pre, cur) == split_rec(path@.skip(i + 1), cur.push(path@[i as int])));
                assert(cur.push(path@[i as int]) =~= path@.subrange(seg_start as int, i + 1));
            }
        }
        i = i + 1;
    }
    let ghost cur = path@.subrange(seg_start as int, n as int);
    proof {
        assert(path@.skip(n as int) =~= Seq::<char>::empty());
    }
    if seg_start < n {
        let seg = path.substring_char(seg_start, n);
        result.push(String::from_str(seg));
        proof {
            assert(split_rec(Seq::<char>::empty(), cur) == seq![cur]);
            assert(strs_view(result@) =~= strs_view(result@.drop_last()) + seq![cur]);
        }
    } else {
        proof {
            assert(cur =~= Seq::<char>::empty());
            assert(split_rec(Seq::<char>::empty(), cur) =~= Seq::<Seq<char>>::empty());
            assert(strs_view(result@) + Seq::<Seq<char>>::empty() =~= strs_view(result@));
        }
    }
    result
}

/// Path segments joined back with `/` (no leading or trailing slash).
pub open spec fn join_spec(segs: Seq<Seq<char>>) -> Seq<char>
    decreases segs.len(),
{
    if segs.len() == 0 {
        seq![]
    } else if segs.len() == 1 {
        segs[0]
    } else {
        join_spec(segs.drop_last()) + seq!['/'] + segs.last()
    }
}

/// Joins the segments from `k` on with `/`.
fn join_from(segs: &Vec<String>, k: usize) -> (r: String)
    requires
        k <= segs@.len(),
    ensures
        r@ == join_spec(strs_view(segs@).skip(k as int)),
{
    let mut out = String::new();
    let mut idx: usize = k;
    proof {
        reveal_strlit("/");
        assert(strs_view(segs@).skip(k as int).subrange(0, 0) =~= Seq::<Seq<char>>::empty());
    }
    while idx < segs.len()
        invariant
            k <= idx <= segs@.len(),
            out@ == join_spec(strs_view(segs@).subrange(k as int, idx as int)),
            "/"@ == seq!['/'],
        decreases segs@.len() - idx,
    {
        let ghost part = strs_view(segs@).subrange(k as int, idx as int);
        let ghost next = strs_view(segs@).subrange(k as int, idx + 1);
        proof {
            assert(next.drop_last() =~= part);
            assert(next.last() == segs@[idx as int]@);
        }
        if idx > k {
            out.append("/");
        }
        out.append(segs[idx].as_str());
        proof {
            if idx == k {
                assert(next.len() == 1);
                assert(join_spec(next) == next[0]);
                assert(out@ =~= next[0]);
            } else {
                assert(join_spec(next) == join_spec(part) + seq!['/'] + next.last());
            }
        }
        idx = idx + 1;
    }
    proof {
        assert(strs_view(segs@).subrange(k as int, segs@.len() as int) =~= strs_view(
            segs@,
        ).skip(k as int));
    }
    out
}

/// Whether one non-wildcard segment matcher accepts one path segment.
pub open spec fn seg_matches(m: SegModel, seg: Seq<char>) -> bool {
    match m {
        SegModel::Literal(l) => seg == l,
        SegModel::Capture(_) => true,
        SegModel::CaptureU32(_) => is_u32_string(seg),
        SegModel::Wildcard(_) => false,
    }
}

/// The parameter bindings one matcher records for one segment.
pub open spec fn binding_of(m: SegModel, seg: Seq<char>) -> Seq<(Seq<char>, Seq<char>)> {
    match m {
        SegModel::Literal(_) => seq![],
        SegModel::Capture(n) => seq![(n, seg)],
        SegModel::CaptureU32(n) => seq![(n, seg)],
        SegModel::Wildcard(_) => seq![],
    }
}

/// Matching of a segment-matcher list against path segments, left to
/// right: a literal must be equal, a capture consumes one segment, a
/// typed capture consumes one segment that parses, and a wildcard (only
/// in last position) consumes all remaining segments. Without a wildcard
/// the counts must be equal. The result is the ordered parameter
/// bindings, or `None` on mismatch.
pub open spec fn match_segs_spec(pat: Seq<SegModel>, segs: Seq<Seq<char>>) -> Option<
    Seq<(Seq<char>, Seq<char>)>,
>
    decreases pat.len(),
{
    if pat.len() == 0 {
        if segs.len() == 0 {
            Some(seq![])
        } else {
            None
        }
    } else if pat[0] is Wildcard {
        if pat.len() == 1 {
            Some(seq![(pat[0]->Wildcard_0, join_spec(segs))])
        } else {
            None
        }
    } else if segs.len() > 0 && seg_matches(pat[0], segs[0]) {
        match match_segs_spec(pat.drop_first(), segs.drop_first()) {
            Some(rest) => Some(binding_of(pat[0], segs[0]) + rest),
            None => None,
        }
    } else {
        None
    }
}

/// The views of a list of string pairs.
pub open spec fn pairs_view(v: Seq<(String, String)>) -> Seq<(Seq<char>, Seq<char>)> {
    Seq::new(v.len(), |i: int| (v[i].0@, v[i].1@))
}

/// The views of a list of segment matchers.
pub open spec fn segs_view(v: Seq<Segment>) -> Seq<SegModel> {
    Seq::new(v.len(), |i: int| v[i]@)
}

/// `combine(b, o)`: the bindings `b` prepended to the result `o`.
pub open spec fn combine(b: Seq<(Seq<char>, Seq<char>)>, o: Option<Seq<(Seq<char>, Seq<char>)>>)
    -> Option<Seq<(Seq<char>, Seq<char>)>> {
    match o {
        Some(r) => Some(b + r),
        None => None,
    }
}

/// Matches a segment-matcher list against path segments, producing the
/// ordered parameter bindings.
pub fn match_segments(pat: &Vec<Segment>, segs: &Vec<String>) -> (r: Option<Vec<(String, String)>>)
    ensures
        match r {
            Some(b) => match_segs_spec(segs_view(pat@), strs_view(segs@)) == Some(pairs_view(b@)),
            None => match_segs_spec(segs_view(pat@), strs_view(segs@)) is None,
        },
{
    let ghost pm = segs_view(pat@);
    let ghost sm = strs_view(segs@);
    let mut bindings: Vec<(String, String)> = Vec::new();
    let mut k: usize = 0;
    proof {
        assert(pm.skip(0) =~= pm);
        assert(sm.skip(0) =~= sm);
        assert(pairs_view(bindings@) =~= Seq::<(Seq<char>, Seq<char>)>::empty());
        assert(forall|o: Option<Seq<(Seq<char>, Seq<char>)>>|
            combine(Seq::<(Seq<char>, Seq<char>)>::empty(), o) == match o {
                Some(r) => Some(Seq::<(Seq<char>, Seq<char>)>::empty() + r),
                None => None::<Seq<(Seq<char>, Seq<char>)>>,
            });
    }
    while k < pat.len()
        invariant
            0 <= k <= pat@.len(),
            k <= segs@.len(),
            pm == segs_view(pat@),
            sm == strs_view(segs@),
            match_segs_spec(pm, sm) == combine(
                pairs_view(bindings@),
                match_segs_spec(pm.skip(k as int), sm.skip(k as int)),
            ),
        decreases pat@.len() - k,
    {
        let ghost pk = pm.skip(k as int);
        let ghost sk = sm.skip(k as int);
        proof {
            assert(pk[0] == pat@[k as int]@);
            assert(pk.drop_first() =~= pm.skip(k + 1));
            assert(sk.len() == sm.len() - k);
        }
        match &pat[k] {
            Segment::Wildcard(name) => {
                if k + 1 == pat.len() {
                    let tail = join_from(segs, k);
                    bindings.push((name.clone(), tail));
                    proof {
                        assert(pk.len() == 1);
                        assert(match_segs_spec(pk, sk) == Some(
                            seq![(pk[0]->Wildcard_0, join_spec(sk))],
                        ));
                        assert(pairs_view(bindings@) =~= pairs_view(bindings@.drop_last()) + seq![
                            (pk[0]->Wildcard_0, join_spec(sk)),
                        ]);
                    }
                    return Some(bindings);
                } else {
                    proof {
                        assert(match_segs_spec(pk, sk) is None);
                    }
                    return None;
                }
            },
            Segment::Literal(lit) => {
                if k < segs.len() {
                    proof {
                        assert(sk[0] == segs@[k as int]@);
                        assert(sk.drop_first() =~= sm.skip(k + 1));
                    }
                    if *lit == segs[k] {
                        proof {
                            assert(seg_matches(pk[0], sk[0]));
                            assert(binding_of(pk[0], sk[0]) =~= Seq::<
                                (Seq<char>, Seq<char>),
                            >::empty());
                            assert(match_segs_spec(pk, sk) == combine(
                                binding_of(pk[0], sk[0]),
                                match_segs_spec(pm.skip(k + 1), sm.skip(k + 1)),
                            ));
                            assert_combine_assoc(
                                pairs_view(bindings@),
                                binding_of(pk[0], sk[0]),
                                match_segs_spec(pm.skip(k + 1), sm.skip(k + 1)),
                            );
                        }
                        k = k + 1;
                    } else {
                        proof {
                            assert(!seg_matches(pk[0], sk[0]));
                            assert(match_segs_spec(pk, sk) is None);
                        }
                        return None;
                    }
                } else {
                    proof {
                        assert(sk.len() == 0);
                        assert(match_segs_spec(pk, sk) is None);
                    }
                    return None;
                }
            },
            Segment::Capture(name) => {
                if k < segs.len() {
                    proof {
                        assert(sk[0] == segs@[k as int]@);
                        assert(sk.drop_first() =~= sm.skip(k + 1));
                    }
                    bindings.push((name.clone(), segs[k].clone()));
                    proof {
                        assert(pairs_view(bindings@) =~= pairs_view(bindings@.drop_last())
                            + binding_of(pk[0], sk[0]));
                        assert(match_segs_spec(pk, sk) == combine(
                            binding_of(pk[0], sk[0]),
                            match_segs_spec(pm.skip(k + 1), sm.skip(k + 1)),
                        ));
                        assert_combine_assoc(
                            pairs_view(bindings@.drop_last()),
                            binding_of(pk[0], sk[0]),
                            match_segs_spec(pm.skip(k + 1), sm.skip(k + 1)),
                        );
                    }
                    k = k + 1;
                } else {
                    proof {
                        assert(match_segs_spec(pk, sk) is None);
                    }
                    return None;
                }
            },
            Segment::CaptureU32(name) => {
                if k < segs.len() {
                    proof {
                        assert(sk[0] == segs@[k as int]@);
                        assert(sk.drop_first() =~= sm.skip(k + 1));
                    }
                    if is_valid_u32(segs[k].as_str()) {
                        bindings.push((name.clone(), segs[k].clone()));
                        proof {
                            assert(pairs_view(bindings@) =~= pairs_view(bindings@.drop_last())
                                + binding_of(pk[0], sk[0]));
                            assert(match_segs_spec(pk, sk) == combine(
                                binding_of(pk[0], sk[0]),
                                match_segs_spec(pm.skip(k + 1), sm.skip(k + 1)),
                            ));
                            assert_combine_assoc(
                                pairs_view(bindings@.drop_last()),
                                binding_of(pk[0], sk[0]),
                                match_segs_spec(pm.skip(k + 1), sm.skip(k + 1)),
                            );
                        }
                        k = k + 1;
                    } else {
                        proof {
                            assert(!seg_matches(pk[0], sk[0]));
                            assert(match_segs_spec(pk, sk) is None);
                        }
                        return None;
                    }
                } else {
                    proof {
                        assert(match_segs_spec(pk, sk) is None);
                    }
                    return None;
                }
            },
        }
    }
    proof {
        assert(pm.skip(k as int).len() == 0);
    }
    if k == segs.len() {
        proof {
            assert(sm.skip(k as int).len() == 0);
            assert(match_segs_spec(pm.skip(k as int), sm.skip(k as int)) == Some(
                Seq::<(Seq<char>, Seq<char>)>::empty(),
            ));
            assert(pairs_view(bindings@) + Seq::<(Seq<char>, Seq<char>)>::empty() =~= pairs_view(
                bindings@,
            ));
        }
        Some(bindings)
    } else {
        proof {
            assert(sm.skip(k as int).len() > 0);
            assert(match_segs_spec(pm.skip(k as int), sm.skip(k as int)) is None);
        }
        None
    }
}

/// The ghost model of a compiled pattern.
pub struct PatternModel {
    /// The method the pattern is bound to, or `None` for any method.
    pub method: Option<Seq<char>>,
    /// The segment matchers, in order.
    pub segments: Seq<SegModel>,
}

/// The view of an optional string.
pub open spec fn opt_view(m: Option<String>) -> Option<Seq<char>> {
    match m {
        Some(s) => Some(s@),
        None => None,
    }
}

/// Whether a wildcard occurs only in last position.
pub open spec fn wildcard_last_only(m: Seq<SegModel>) -> bool {
    forall|i: int| 0 <= i < m.len() - 1 ==> !(#[trigger] m[i] is Wildcard)
}

/// Each path-pattern segment read as a segment matcher.
pub open spec fn classified(s: Seq<Seq<char>>) -> Seq<SegModel> {
    Seq::new(s.len(), |i: int| classify_spec(s[i]))
}

/// How a pattern string compiles: its segments are split on `/` and each
/// is read as a matcher; the compilation is refused only when a wildcard
/// is not the last segment.
pub open spec fn compile_spec(s: Seq<char>) -> Option<Seq<SegModel>> {
    let m = classified(split_path_spec(s));
    if wildcard_last_only(m) {
        Some(m)
    } else {
        None
    }
}

/// Whether a pattern bound to `m` applies to a request of method `req`.
pub open spec fn method_matches(m: Option<Seq<char>>, req: Seq<char>) -> bool {
    m is None || m->0 == req
}

/// The whole match: the method must apply and the segments must match.
pub open spec fn match_spec(
    p: PatternModel,
    method: Seq<char>,
    path_segs: Seq<Seq<char>>,
) -> Option<Seq<(Seq<char>, Seq<char>)>> {
    if method_matches(p.method, method) {
        match_segs_spec(p.segments, path_segs)
    } else {
        None
    }
}

/// A compiled route pattern: a method (or any) and an ordered list of
/// segment matchers, with a wildcard only in last position.
pub struct Pattern {
    /// The method this pattern is bound to; `None` matches any method.
    pub method: Option<String>,
    /// The compiled segment matchers.
    pub segments: Vec<Segment>,
}

impl View for Pattern {
    type V = PatternModel;

    open spec fn view(&self) -> PatternModel {
        PatternModel { method: opt_view(self.method), segments: segs_view(self.segments@) }
    }
}

impl Pattern {
    /// A well-formed pattern has its wildcard, if any, in last position.
    pub open spec fn wf(&self) -> bool {
        wildcard_last_only(self@.segments)
    }

    /// Compiles a pattern string for the given method (`None` matches any
    /// method). Returns `None` only when a wildcard segment is not last.
    pub fn new(method: Option<String>, pattern: &str) -> (r: Option<Pattern>)
        ensures
            match r {
                Some(p) => {
                    &&& compile_spec(pattern@) == Some(p@.segments)
                    &&& p@.method == opt_view(method)
                    &&& p.wf()
                },
                None => compile_spec(pattern@) is None,
            },
    {
        let parts = split_path(pattern);
        let mut compiled: Vec<Segment> = Vec::new();
        let mut i: usize = 0;
        while i < parts.len()
            invariant
                0 <= i <= parts@.len(),
                compiled@.len() == i,
                forall|j: int| 0 <= j < i ==> #[trigger] compiled@[j]@ == classify_spec(
                    strs_view(parts@)[j],
                ),
            decreases parts@.len() - i,
        {
            let seg = classify(parts[i].as_str());
            compiled.push(seg);
            i = i + 1;
        }
        proof {
            assert(segs_view(compiled@) =~= classified(split_path_spec(pattern@)));
        }
        let mut j: usize = 0;
        let n = compiled.len();
        while j < n
            invariant
                0 <= j <= n,
                n == compiled@.len(),
                segs_view(compiled@) == classified(split_path_spec(pattern@)),
                forall|t: int| 0 <= t < j && t < n - 1 ==> !(#[trigger] segs_view(compiled@)[t]
                    is Wildcard),
            decreases n - j,
        {
            if j + 1 < n {
                let is_wild = match &compiled[j] {
                    Segment::Wildcard(_) => true,
                    _ => false,
                };
                if is_wild {
                    proof {
                        assert(segs_view(compiled@)[j as int] is Wildcard);
                        assert(!wildcard_last_only(segs_view(compiled@)));
                    }
                    return None;
                }
            }
            j = j + 1;
        }
        proof {
            assert(wildcard_last_only(segs_view(compiled@)));
        }
        Some(Pattern { method, segments: compiled })
    }

    /// Matches a request's method and decoded path against this pattern,
    /// producing the ordered parameter bindings on success.
    pub fn matches(&self, method: &str, path: &str) -> (r: Option<Vec<(String, String)>>)
        ensures
            match r {
                Some(b) => match_spec(self@, method@, split_path_spec(path@)) == Some(
                    pairs_view(b@),
                ),
                None => match_spec(self@, method@, split_path_spec(path@)) is None,
            },
    {
        let segs = split_path(path);
        self.matches_segments(method, &segs)
    }

    /// Matches a request's method and already-split path segments.
    pub fn matches_segments(&self, method: &str, segs: &Vec<String>) -> (r: Option<
        Vec<(String, String)>,
    >)
        ensures
            match r {
                Some(b) => match_spec(self@, method@, strs_view(segs@)) == Some(pairs_view(b@)),
                None => match_spec(self@, method@, strs_view(segs@)) is None,
            },
    {
        let applies = match &self.method {
            None => true,
            Some(m) => *m == String::from_str(method),
        };
        if !applies {
            return None;
        }
        match_segments(&self.segments, segs)
    }

    /// Matches against a raw, percent-encoded URL: the URL is decoded
    /// once, then split and matched.
    pub fn match_url(&self, method: &str, raw_url: &str) -> (r: Option<Vec<(String, String)>>)
        ensures
            match r {
                Some(b) => match_spec(
                    self@,
                    method@,
                    split_path_spec(percent_decoded(raw_url@)),
                ) == Some(pairs_view(b@)),
                None => match_spec(
                    self@,
                    method@,
                    split_path_spec(percent_decoded(raw_url@)),
                ) is None,
            },
    {
        let decoded = decode_url(raw_url);
        self.matches(method, decoded.as_str())
    }
}

/// What percent-decoding yields on a given string (lossy UTF-8:
/// undecodable byte sequences become U+FFFD).
pub uninterp spec fn percent_decoded(s: Seq<char>) -> Seq<char>;

/// Relies on url::percent_encoding::percent_decode together with
/// PercentDecode::decode_utf8_lossy: percent-decodes the string's bytes
/// once and reads them as UTF-8, a result that depends on the input
/// alone.
#[verifier::external_body]
pub(crate) fn decode_url(raw: &str) -> (r: String)
    ensures
        r@ == percent_decoded(raw@),
{
    url::percent_encoding::percent_decode(raw.as_bytes()).decode_utf8_lossy().into_owned()
}

proof fn assert_combine_assoc(
    a: Seq<(Seq<char>, Seq<char>)>,
    b: Seq<(Seq<char>, Seq<char>)>,
    o: Option<Seq<(Seq<char>, Seq<char>)>>,
)
    ensures
        combine(a, combine(b, o)) == combine(a + b, o),
{
    match o {
        Some(r) => {
            assert(a + (b + r) =~= (a + b) + r);
        },
        None => {},
    }
}

/// With only literal and capture segments (no wildcard), a path matches
/// iff the segment counts are equal and every matcher accepts its
/// segment: a literal must be equal, a plain capture accepts anything,
/// and a typed capture requires the segment to parse.
pub proof fn lemma_match_exact(pat: Seq<SegModel>, segs: Seq<Seq<char>>)
    requires
        forall|i: int| 0 <= i < pat.len() ==> !(#[trigger] pat[i] is Wildcard),
    ensures
        match_segs_spec(pat, segs) is Some <==> (pat.len() == segs.len() && forall|i: int|
            0 <= i < pat.len() ==> seg_matches(#[trigger] pat[i], segs[i])),
    decreases pat.len(),
{
    if pat.len() == 0 {
    } else {
        let pt = pat.drop_first();
        let st = segs.drop_first();
        assert(forall|i: int| 0 <= i < pt.len() ==> #[trigger] pt[i] == pat[i + 1]);
        if segs.len() > 0 && seg_matches(pat[0], segs[0]) {
            assert(forall|i: int| 0 <= i < st.len() ==> #[trigger] st[i] == segs[i + 1]);
            lemma_match_exact(pt, st);
            if match_segs_spec(pat, segs) is Some {
                assert forall|i: int| 1 <= i < pat.len() implies seg_matches(
                    #[trigger] pat[i],
                    segs[i],
                ) by {
                    assert(pt[i - 1] == pat[i]);
                    assert(st[i - 1] == segs[i]);
                    assert(seg_matches(pt[i - 1], st[i - 1]));
                }
            }
            if pat.len() == segs.len() && (forall|i: int| 0 <= i < pat.len() ==> seg_matches(
                #[trigger] pat[i],
                segs[i],
            )) {
                assert forall|i: int| 0 <= i < pt.len() implies seg_matches(
                    #[trigger] pt[i],
                    st[i],
                ) by {
                    assert(seg_matches(pat[i + 1], segs[i + 1]));
                }
            }
        } else {
            assert(match_segs_spec(pat, segs) is None);
            if segs.len() == 0 {
                assert(pat.len() != segs.len());
            } else {
                assert(!seg_matches(pat[0], segs[0]));
            }
        }
    }
}

/// With a trailing wildcard, a path matches iff it has at least the
/// pattern's other segments, each accepted by its matcher; the wildcard
/// then captures the remaining segments joined with `/` (the empty string
/// when none remain), recorded as the last binding.
pub proof fn lemma_match_wildcard(pat: Seq<SegModel>, segs: Seq<Seq<char>>)
    requires
        pat.len() >= 1,
        pat.last() is Wildcard,
        forall|i: int| 0 <= i < pat.len() - 1 ==> !(#[trigger] pat[i] is Wildcard),
    ensures
        match_segs_spec(pat, segs) is Some <==> (segs.len() >= pat.len() - 1 && forall|i: int|
            0 <= i < pat.len() - 1 ==> seg_matches(#[trigger] pat[i], segs[i])),
        match_segs_spec(pat, segs) is Some ==> {
            let b = match_segs_spec(pat, segs)->Some_0;
            &&& b.len() >= 1
            &&& b.last() == (pat.last()->Wildcard_0, join_spec(segs.skip(pat.len() - 1)))
        },
    decreases pat.len(),
{
    if pat.len() == 1 {
        assert(segs.skip(0) =~= segs);
    } else {
        let pt = pat.drop_first();
        let st = segs.drop_first();
        assert(forall|i: int| 0 <= i < pt.len() ==> #[trigger] pt[i] == pat[i + 1]);
        assert(pt.last() == pat.last());
        assert(!(pat[0] is Wildcard));
        if segs.len() > 0 && seg_matches(pat[0], segs[0]) {
            assert(forall|i: int| 0 <= i < st.len() ==> #[trigger] st[i] == segs[i + 1]);
            lemma_match_wildcard(pt, st);
            if match_segs_spec(pat, segs) is Some {
                assert(st.len() >= pt.len() - 1);
                assert forall|i: int| 0 <= i < st.skip(pt.len() - 1).len() implies #[trigger] st
                    .skip(pt.len() - 1)[i] == segs.skip(pat.len() - 1)[i] by {
                    assert(st.skip(pt.len() - 1)[i] == st[pt.len() - 1 + i]);
                    assert(segs.skip(pat.len() - 1)[i] == segs[pat.len() - 1 + i]);
                }
                assert(st.skip(pt.len() - 1) =~= segs.skip(pat.len() - 1));
                let rest = match_segs_spec(pt, st)->Some_0;
                let b = match_segs_spec(pat, segs)->Some_0;
                assert(b == binding_of(pat[0], segs[0]) + rest);
                assert(b.last() == rest.last());
                assert forall|i: int| 1 <= i < pat.len() - 1 implies seg_matches(
                    #[trigger] pat[i],
                    segs[i],
                ) by {
                    assert(pt[i - 1] == pat[i]);
                    assert(st[i - 1] == segs[i]);
                    assert(seg_matches(pt[i - 1], st[i - 1]));
                }
            }
            if segs.len() >= pat.len() - 1 && (forall|i: int| 0 <= i < pat.len() - 1
                ==> seg_matches(#[trigger] pat[i], segs[i])) {
                assert forall|i: int| 0 <= i < pt.len() - 1 implies seg_matches(
                    #[trigger] pt[i],
                    st[i],
                ) by {
                    assert(seg_matches(pat[i + 1], segs[i + 1]));
                }
            }
        } else {
            assert(match_segs_spec(pat, segs) is None);
            if segs.len() >= pat.len() - 1 {
                assert(segs.len() > 0);
                assert(!seg_matches(pat[0], segs[0]));
            }
        }
    }
}

} // verus!

//! The mathematical model of a path buffer.
//!
//! A buffer is a sequence of characters. A path is decomposed into
//! components: an optional root (a leading `/`), an optional current-directory
//! marker (a leading `.` segment of a relative path), and the remaining
//! segments, where empty segments and interior `.` segments carry no meaning
//! and are dropped. The functions here define the push rule, the parent rule
//! used by `pop`, the file-name and extension rules, and component-based
//! equality. The executable type in [`crate::pathdiv`] is verified against
//! these definitions.

use vstd::prelude::*;

verus! {

/// True when the buffer starts with the separator, i.e. the path is absolute.
pub open spec fn has_root(s: Seq<char>) -> bool {
    s.len() > 0 && s[0] == '/'
}

/// The push rule: an absolute segment replaces the buffer; otherwise the
/// segment is appended, with a separator in between unless the buffer is
/// empty or already ends with a separator.
pub open spec fn joined(base: Seq<char>, seg: Seq<char>) -> Seq<char> {
    if has_root(seg) {
        seg
    } else if base.len() == 0 {
        seg
    } else if base[base.len() - 1] == '/' {
        base + seg
    } else {
        base + seq!['/'] + seg
    }
}

/// Sequential pushes of every element of `segs` onto `base`, left to right.
pub open spec fn joined_all(base: Seq<char>, segs: Seq<Seq<char>>) -> Seq<char>
    decreases segs.len(),
{
    if segs.len() == 0 {
        base
    } else {
        joined_all(joined(base, segs[0]), segs.drop_first())
    }
}

/// True when position `j` is the end of a `.` segment: the character before
/// `j` is a dot that stands alone between separators (or the start).
pub open spec fn dot_seg_ends_at(s: Seq<char>, j: int) -> bool {
    s[j - 1] == '.' && (j == 1 || s[j - 2] == '/')
}

/// The end of the last component of `s[..j]`: trailing separators and
/// trailing `.` segments carry no meaning and are stepped over, except for
/// the leading `.` of a relative path, which is itself a component. The
/// result is `0` when `s[..j]` has no component besides a root.
pub open spec fn trim_end(s: Seq<char>, j: int) -> int
    decreases j, when 0 <= j <= s.len()
{
    if j <= 0 {
        0
    } else if s[j - 1] == '/' {
        trim_end(s, j - 1)
    } else if dot_seg_ends_at(s, j) && !(j == 1 && !has_root(s)) {
        trim_end(s, j - 1)
    } else {
        j
    }
}

/// The start of the component that ends at `j`: the position after the
/// nearest separator before `j`.
pub open spec fn seg_start(s: Seq<char>, j: int) -> int
    decreases j, when 0 <= j <= s.len()
{
    if j <= 0 {
        0
    } else if s[j - 1] == '/' {
        j
    } else {
        seg_start(s, j - 1)
    }
}

/// The end of the run of separators that starts at `i`.
pub open spec fn sep_run_end(s: Seq<char>, i: int) -> int
    decreases s.len() - i, when 0 <= i <= s.len()
{
    if i >= s.len() || s[i] != '/' {
        i
    } else {
        sep_run_end(s, i + 1)
    }
}

/// The length of the leading separator run: the root marker of an absolute
/// path, `0` for a relative path.
pub open spec fn root_run(s: Seq<char>) -> int {
    sep_run_end(s, 0)
}

/// The length of the parent of the component starting at `i`: separators and
/// `.` segments before `i` are stepped over, while the root marker and the
/// leading `.` of a relative path are kept.
pub open spec fn trim_parent(s: Seq<char>, i: int) -> int
    decreases i, when 0 <= i <= s.len()
{
    if i <= 0 {
        0
    } else if i <= root_run(s) {
        i
    } else if s[i - 1] == '/' {
        trim_parent(s, i - 1)
    } else if dot_seg_ends_at(s, i) && !(i == 1 && !has_root(s)) {
        trim_parent(s, i - 1)
    } else {
        i
    }
}

/// The parent rule used by `pop`: `None` when the buffer has no component
/// besides a root (nothing further to remove), otherwise the length the
/// buffer is truncated to.
pub open spec fn pop_len(s: Seq<char>) -> Option<int> {
    let j = trim_end(s, s.len() as int);
    if j <= 0 {
        None
    } else {
        Some(trim_parent(s, seg_start(s, j)))
    }
}

/// The last component of the path, before any trailing separators or `.`
/// segments; `None` when the path has no component besides a root.
pub open spec fn last_comp(s: Seq<char>) -> Option<Seq<char>> {
    let j = trim_end(s, s.len() as int);
    if j <= 0 {
        None
    } else {
        Some(s.subrange(seg_start(s, j), j))
    }
}

/// The final file name: the last component, unless it is the
/// current-directory or parent-directory marker.
pub open spec fn file_name_of(s: Seq<char>) -> Option<Seq<char>> {
    match last_comp(s) {
        Option::None => Option::None,
        Option::Some(g) => if g == seq!['.'] || g == seq!['.', '.'] {
            Option::None
        } else {
            Option::Some(g)
        },
    }
}

/// The file-name replacement rule: when a final file name exists it is
/// removed first (the parent rule), then `name` is pushed; otherwise `name`
/// is pushed directly.
pub open spec fn with_file_name(s: Seq<char>, name: Seq<char>) -> Seq<char> {
    match file_name_of(s) {
        Option::Some(_) => joined(
            s.take(trim_parent(s, seg_start(s, trim_end(s, s.len() as int)))),
            name,
        ),
        Option::None => joined(s, name),
    }
}

/// The position of the last `.` of the component `s[i..t]` that can begin an
/// extension: a `.` at the component's first position names a hidden file
/// and does not count. `-1` when there is no such dot.
pub open spec fn last_dot_in(s: Seq<char>, i: int, t: int) -> int
    decreases t, when 0 <= i <= t <= s.len()
{
    if t <= i + 1 {
        -1
    } else if s[t - 1] == '.' {
        t - 1
    } else {
        last_dot_in(s, i, t - 1)
    }
}

/// The end of the stem of the component `s[i..j]`: the position of the dot
/// that begins the extension, or `j` when the component has none.
pub open spec fn stem_end(s: Seq<char>, i: int, j: int) -> int {
    let p = last_dot_in(s, i, j);
    if p < 0 {
        j
    } else {
        p
    }
}

/// The extension replacement rule: the buffer is cut at the end of the final
/// file name's stem, then `.` and the new extension follow, unless the new
/// extension is empty, in which case the old one is only removed. A buffer
/// without a final file name is left unchanged.
pub open spec fn with_extension(s: Seq<char>, ext: Seq<char>) -> Seq<char> {
    match file_name_of(s) {
        Option::None => s,
        Option::Some(_) => {
            let j = trim_end(s, s.len() as int);
            let i = seg_start(s, j);
            s.take(stem_end(s, i, j)) + if ext.len() == 0 {
                Seq::<char>::empty()
            } else {
                seq!['.'] + ext
            }
        },
    }
}

/// Drops a gathered segment that carries no meaning: an empty one (between
/// two separators) or a `.` one.
pub open spec fn flush_seg(cur: Seq<char>) -> Seq<Seq<char>> {
    if cur.len() == 0 || cur == seq!['.'] {
        Seq::<Seq<char>>::empty()
    } else {
        seq![cur]
    }
}

/// The meaningful segments of `s[i..]`, with `cur` the partial segment
/// gathered so far: segments are the maximal separator-free runs, with empty
/// and `.` runs dropped.
pub open spec fn comps_acc(s: Seq<char>, i: int, cur: Seq<char>) -> Seq<Seq<char>>
    decreases s.len() - i, when 0 <= i <= s.len()
{
    if i >= s.len() {
        flush_seg(cur)
    } else if s[i] == '/' {
        flush_seg(cur) + comps_acc(s, i + 1, Seq::<char>::empty())
    } else {
        comps_acc(s, i + 1, cur.push(s[i]))
    }
}

/// The meaningful segments of the whole path.
pub open spec fn kept_segments(s: Seq<char>) -> Seq<Seq<char>> {
    comps_acc(s, 0, Seq::<char>::empty())
}

/// True when the path is relative and starts with a lone `.` segment: the
/// current-directory marker, which is a component of its own.
pub open spec fn cur_dir(s: Seq<char>) -> bool {
    !has_root(s) && s.len() > 0 && s[0] == '.' && (s.len() == 1 || s[1] == '/')
}

/// Component-based path equality: two paths are equal when they agree on the
/// root marker, on the current-directory marker, and on the sequence of
/// meaningful segments. Differences that carry no meaning (repeated
/// separators, interior `.` segments, a trailing separator) do not
/// distinguish paths.
pub open spec fn path_eq(a: Seq<char>, b: Seq<char>) -> bool {
    has_root(a) == has_root(b) && cur_dir(a) == cur_dir(b) && kept_segments(a) == kept_segments(b)
}

/// Law: a chain of joins is sequential pushing; joining `s1` and then `s2`
/// onto `p` gives exactly the buffer that pushing `s1` then `s2`, in that
/// order, produces.
pub proof fn lemma_chained_join_is_sequential_push(p: Seq<char>, s1: Seq<char>, s2: Seq<char>)
    ensures
        joined(joined(p, s1), s2) == joined_all(p, seq![s1, s2]),
{
    let segs = seq![s1, s2];
    assert(segs.drop_first() =~= seq![s2]);
    assert(seq![s2].drop_first() =~= Seq::<Seq<char>>::empty());
    assert(segs[0] == s1);
    assert(seq![s2][0] == s2);
    assert(joined_all(p, segs) == joined_all(joined(p, s1), seq![s2]));
    assert(joined_all(joined(p, s1), seq![s2]) == joined_all(
        joined(joined(p, s1), s2),
        Seq::<Seq<char>>::empty(),
    ));
}

/// Law: joining a segment that is itself an absolute path replaces the
/// buffer entirely with that segment, whatever the buffer held.
pub proof fn lemma_absolute_segment_replaces(base: Seq<char>, seg: Seq<char>)
    requires
        has_root(seg),
    ensures
        joined(base, seg) == seg,
{
}

/// Law: component-based equality is reflexive.
pub proof fn lemma_path_eq_reflexive(a: Seq<char>)
    ensures
        path_eq(a, a),
{
}

/// Law: component-based equality is symmetric.
pub proof fn lemma_path_eq_symmetric(a: Seq<char>, b: Seq<char>)
    requires
        path_eq(a, b),
    ensures
        path_eq(b, a),
{
}

/// Law: component-based equality is transitive.
pub proof fn lemma_path_eq_transitive(a: Seq<char>, b: Seq<char>, c: Seq<char>)
    requires
        path_eq(a, b),
        path_eq(b, c),
    ensures
        path_eq(a, c),
{
}

pub proof fn lemma_trim_end_le(s: Seq<char>, j: int)
    requires
        0 <= j <= s.len(),
    ensures
        0 <= trim_end(s, j) <= j,
    decreases j,
{
    if j > 0 && (s[j - 1] == '/' || (dot_seg_ends_at(s, j) && !(j == 1 && !has_root(s)))) {
        lemma_trim_end_le(s, j - 1);
    }
}

pub proof fn lemma_trim_end_stops_off_sep(s: Seq<char>, j: int)
    requires
        0 <= j <= s.len(),
        trim_end(s, j) > 0,
    ensures
        s[trim_end(s, j) - 1] != '/',
    decreases j,
{
    if j > 0 && (s[j - 1] == '/' || (dot_seg_ends_at(s, j) && !(j == 1 && !has_root(s)))) {
        lemma_trim_end_stops_off_sep(s, j - 1);
    }
}

pub proof fn lemma_seg_start_le(s: Seq<char>, j: int)
    requires
        0 <= j <= s.len(),
    ensures
        0 <= seg_start(s, j) <= j,
        j > 0 && s[j - 1] != '/' ==> seg_start(s, j) <= j - 1,
    decreases j,
{
    if j > 0 && s[j - 1] != '/' {
        lemma_seg_start_le(s, j - 1);
    }
}

pub proof fn lemma_trim_parent_le(s: Seq<char>, i: int)
    requires
        0 <= i <= s.len(),
    ensures
        0 <= trim_parent(s, i) <= i,
    decreases i,
{
    if i > 0 && i > root_run(s) && (s[i - 1] == '/' || (dot_seg_ends_at(s, i) && !(i == 1
        && !has_root(s)))) {
        lemma_trim_parent_le(s, i - 1);
    }
}

/// Law: a removal, when `pop` reports one, strictly shrinks the buffer, so
/// repeated removal must reach a state where nothing further can be removed
/// and `pop` reports `false`; and `pop` reports `false` exactly on the
/// buffers that have no component besides a root.
pub proof fn lemma_pop_shrinks(s: Seq<char>)
    ensures
        pop_len(s) is Some <==> trim_end(s, s.len() as int) > 0,
        match pop_len(s) {
            Option::Some(k) => 0 <= k < s.len(),
            Option::None => true,
        },
{
    lemma_trim_end_le(s, s.len() as int);
    let j = trim_end(s, s.len() as int);
    if j > 0 {
        lemma_trim_end_stops_off_sep(s, s.len() as int);
        lemma_seg_start_le(s, j);
        lemma_trim_parent_le(s, seg_start(s, j));
    }
}

/// One component of a decomposed path: the root marker, the
/// current-directory marker, the parent-directory marker, or a named
/// segment.
pub ghost enum PathPart {
    Root,
    Here,
    Up,
    Name(Seq<char>),
}

/// The component a meaningful segment stands for: the parent-directory
/// marker for `..`, otherwise a named segment.
pub open spec fn part_of(g: Seq<char>) -> PathPart {
    if g == seq!['.', '.'] {
        PathPart::Up
    } else {
        PathPart::Name(g)
    }
}

/// The full component sequence of a path: the root marker, then the
/// current-directory marker, then the meaningful segments.
pub open spec fn parts(s: Seq<char>) -> Seq<PathPart> {
    (if has_root(s) {
        seq![PathPart::Root]
    } else {
        Seq::<PathPart>::empty()
    }) + (if cur_dir(s) {
        seq![PathPart::Here]
    } else {
        Seq::<PathPart>::empty()
    }) + kept_segments(s).map_values(|g: Seq<char>| part_of(g))
}

/// The rank that orders components of different kinds: the root marker
/// first, then the current-directory marker, then the parent-directory
/// marker, then named segments.
pub open spec fn part_rank(p: PathPart) -> int {
    match p {
        PathPart::Root => 0,
        PathPart::Here => 1,
        PathPart::Up => 2,
        PathPart::Name(_) => 3,
    }
}

/// Three-way lexicographic comparison of two character sequences, by code
/// point; negative, zero or positive as `a` sorts before, with or after `b`.
pub open spec fn chars_cmp(a: Seq<char>, b: Seq<char>) -> int
    decreases a.len(),
{
    if a.len() == 0 && b.len() == 0 {
        0
    } else if a.len() == 0 {
        -1
    } else if b.len() == 0 {
        1
    } else if a[0] != b[0] {
        if (a[0] as u32) < (b[0] as u32) {
            -1
        } else {
            1
        }
    } else {
        chars_cmp(a.drop_first(), b.drop_first())
    }
}

/// Three-way comparison of two components: by rank, and between two named
/// segments by their characters.
pub open spec fn part_cmp(x: PathPart, y: PathPart) -> int {
    if part_rank(x) < part_rank(y) {
        -1
    } else if part_rank(x) > part_rank(y) {
        1
    } else {
        match (x, y) {
            (PathPart::Name(a), PathPart::Name(b)) => chars_cmp(a, b),
            _ => 0,
        }
    }
}

/// Three-way lexicographic comparison of two component sequences.
pub open spec fn parts_cmp(u: Seq<PathPart>, v: Seq<PathPart>) -> int
    decreases u.len(),
{
    if u.len() == 0 && v.len() == 0 {
        0
    } else if u.len() == 0 {
        -1
    } else if v.len() == 0 {
        1
    } else {
        let c = part_cmp(u[0], v[0]);
        if c != 0 {
            c
        } else {
            parts_cmp(u.drop_first(), v.drop_first())
        }
    }
}

/// Component-based path ordering: the lexicographic comparison of the two
/// decomposed component sequences.
pub open spec fn path_cmp(a: Seq<char>, b: Seq<char>) -> int {
    parts_cmp(parts(a), parts(b))
}

pub proof fn lemma_chars_cmp_zero(a: Seq<char>, b: Seq<char>)
    ensures
        chars_cmp(a, b) == 0 <==> a == b,
    decreases a.len(),
{
    if a.len() == 0 && b.len() == 0 {
        assert(a =~= b);
    } else if a.len() > 0 && b.len() > 0 && a[0] == b[0] {
        lemma_chars_cmp_zero(a.drop_first(), b.drop_first());
        if chars_cmp(a, b) == 0 {
            let ad = a.drop_first();
            let bd = b.drop_first();
            assert forall|q: int| 0 <= q < a.len() implies a[q] == b[q] by {
                if q > 0 {
                    assert(a[q] == ad[q - 1]);
                    assert(b[q] == bd[q - 1]);
                }
            }
            assert(a =~= b);
        }
    } else if a.len() > 0 && b.len() > 0 {
        if a == b {
            assert(a[0] == b[0]);
        }
    }
}

pub proof fn lemma_part_cmp_zero(x: PathPart, y: PathPart)
    ensures
        part_cmp(x, y) == 0 <==> x == y,
{
    if part_rank(x) == part_rank(y) {
        match (x, y) {
            (PathPart::Name(a), PathPart::Name(b)) => lemma_chars_cmp_zero(a, b),
            _ => {},
        }
    }
}

pub proof fn lemma_parts_cmp_zero(u: Seq<PathPart>, v: Seq<PathPart>)
    ensures
        parts_cmp(u, v) == 0 <==> u == v,
    decreases u.len(),
{
    if u.len() == 0 && v.len() == 0 {
        assert(u =~= v);
    } else if u.len() > 0 && v.len() > 0 {
        lemma_part_cmp_zero(u[0], v[0]);
        if part_cmp(u[0], v[0]) == 0 {
            lemma_parts_cmp_zero(u.drop_first(), v.drop_first());
            if parts_cmp(u, v) == 0 {
                let ud = u.drop_first();
                let vd = v.drop_first();
                assert forall|q: int| 0 <= q < u.len() implies u[q] == v[q] by {
                    if q > 0 {
                        assert(u[q] == ud[q - 1]);
                        assert(v[q] == vd[q - 1]);
                    }
                }
                assert(u =~= v);
            }
            if u == v {
                assert(u.drop_first() =~= v.drop_first());
            }
        } else {
            if u == v {
                assert(u[0] == v[0]);
            }
        }
    }
}

/// The component sequence determines, and is determined by, the three
/// ingredients of component-based equality.
pub proof fn lemma_parts_eq_iff_path_eq(a: Seq<char>, b: Seq<char>)
    ensures
        parts(a) == parts(b) <==> path_eq(a, b),
{
    let pa = parts(a);
    let pb = parts(b);
    if path_eq(a, b) {
        assert(pa =~= pb);
    }
    if pa == pb {
        lemma_parts_shape(a);
        lemma_parts_shape(b);
        assert(has_root(a) == has_root(b));
        assert(cur_dir(a) == cur_dir(b));
        let na = head_len(a);
        assert(head_len(a) == head_len(b));
        let ka = kept_segments(a);
        let kb = kept_segments(b);
        assert(ka.len() == kb.len());
        assert forall|q: int| 0 <= q < ka.len() implies ka[q] == kb[q] by {
            assert(pa[na + q] == part_of(ka[q]));
            assert(pb[na + q] == part_of(kb[q]));
            lemma_part_of_injective(ka[q], kb[q]);
        }
        assert(ka =~= kb);
    }
}

/// The number of marker components before the named segments.
pub open spec fn head_len(s: Seq<char>) -> int {
    (if has_root(s) {
        1int
    } else {
        0int
    }) + (if cur_dir(s) {
        1int
    } else {
        0int
    })
}

pub proof fn lemma_part_of_injective(g: Seq<char>, h: Seq<char>)
    requires
        part_of(g) == part_of(h),
    ensures
        g == h,
{
}

/// How the component sequence encodes the three ingredients: its length is
/// the marker count plus the segment count, the root marker appears exactly
/// when the path is absolute, the current-directory marker exactly when the
/// path starts with one, and the segments follow in order.
pub proof fn lemma_parts_shape(s: Seq<char>)
    ensures
        parts(s).len() == head_len(s) + kept_segments(s).len(),
        has_root(s) <==> (parts(s).len() > 0 && parts(s)[0] == PathPart::Root),
        cur_dir(s) <==> exists|q: int|
            0 <= q < parts(s).len() && parts(s)[q] == PathPart::Here,
        forall|q: int|
            0 <= q < kept_segments(s).len() ==> parts(s)[head_len(s) + q] == part_of(
                #[trigger] kept_segments(s)[q],
            ),
{
    let m = kept_segments(s).map_values(|g: Seq<char>| part_of(g));
    assert(m.len() == kept_segments(s).len());
    assert forall|q: int| 0 <= q < kept_segments(s).len() implies m[q] == part_of(
        kept_segments(s)[q],
    ) by {}
    assert forall|q: int| 0 <= q < m.len() implies m[q] != PathPart::Root && m[q]
        != PathPart::Here by {
        assert(m[q] == part_of(kept_segments(s)[q]));
    }
    if cur_dir(s) {
        let w = if has_root(s) {
            1int
        } else {
            0int
        };
        assert(parts(s)[w] == PathPart::Here);
    } else {
        assert forall|q: int| 0 <= q < parts(s).len() implies parts(s)[q] != PathPart::Here by {
            if has_root(s) && q == 0 {
            } else {
                assert(parts(s)[q] == m[q - head_len(s)]);
            }
        }
    }
}

/// Law: the ordering and the equality agree; two paths compare as equal
/// exactly when component-based equality holds between them.
pub proof fn lemma_path_cmp_zero_iff_eq(a: Seq<char>, b: Seq<char>)
    ensures
        path_cmp(a, b) == 0 <==> path_eq(a, b),
{
    lemma_parts_cmp_zero(parts(a), parts(b));
    lemma_parts_eq_iff_path_eq(a, b);
}

/// Law: the ordering is antisymmetric; swapping the operands flips the sign.
pub proof fn lemma_path_cmp_antisymmetric(a: Seq<char>, b: Seq<char>)
    ensures
        path_cmp(a, b) == -path_cmp(b, a),
{
    lemma_parts_cmp_antisymmetric(parts(a), parts(b));
}

pub proof fn lemma_chars_cmp_antisymmetric(a: Seq<char>, b: Seq<char>)
    ensures
        chars_cmp(a, b) == -chars_cmp(b, a),
    decreases a.len(),
{
    if a.len() > 0 && b.len() > 0 {
        if a[0] == b[0] {
            lemma_chars_cmp_antisymmetric(a.drop_first(), b.drop_first());
        } else {
            vstd::utf8::char_u32_cast(a[0], a[0] as u32);
            vstd::utf8::char_u32_cast(b[0], b[0] as u32);
        }
    }
}

pub proof fn lemma_parts_cmp_antisymmetric(u: Seq<PathPart>, v: Seq<PathPart>)
    ensures
        parts_cmp(u, v) == -parts_cmp(v, u),
    decreases u.len(),
{
    if u.len() > 0 && v.len() > 0 {
        match (u[0], v[0]) {
            (PathPart::Name(a), PathPart::Name(b)) => lemma_chars_cmp_antisymmetric(a, b),
            _ => {},
        }
        if part_cmp(u[0], v[0]) == 0 {
            lemma_parts_cmp_antisymmetric(u.drop_first(), v.drop_first());
        }
    }
}

/// One mixing step of the rolling component hash.
pub open spec fn hash_mix(h: u64, d: u64) -> u64 {
    h.wrapping_mul(31).wrapping_add(d)
}

/// The characters of a segment from position `i` folded into `h`.
pub open spec fn hash_chars(g: Seq<char>, i: int, h: u64) -> u64
    decreases g.len() - i, when 0 <= i <= g.len()
{
    if i >= g.len() {
        h
    } else {
        hash_chars(g, i + 1, hash_mix(h, (g[i] as u32) as u64))
    }
}

/// One component folded into `h`: a distinct tag for each component kind,
/// and for a named segment also its characters.
pub open spec fn hash_part(p: PathPart, h: u64) -> u64 {
    match p {
        PathPart::Root => hash_mix(h, 0),
        PathPart::Here => hash_mix(h, 1),
        PathPart::Up => hash_mix(h, 2),
        PathPart::Name(g) => hash_chars(g, 0, hash_mix(h, 3)),
    }
}

/// The components from position `i` folded into `h`.
pub open spec fn hash_parts(u: Seq<PathPart>, i: int, h: u64) -> u64
    decreases u.len() - i, when 0 <= i <= u.len()
{
    if i >= u.len() {
        h
    } else {
        hash_parts(u, i + 1, hash_part(u[i], h))
    }
}

/// Component-based path hash: a function of the decomposed component
/// sequence, the same view that equality is decided over.
pub open spec fn path_hash(s: Seq<char>) -> u64 {
    hash_parts(parts(s), 0, 7)
}

/// Law: the hash agrees with the equality; paths that are equal
/// component-wise hash identically.
pub proof fn lemma_equal_paths_hash_identically(a: Seq<char>, b: Seq<char>)
    requires
        path_eq(a, b),
    ensures
        path_hash(a) == path_hash(b),
{
    lemma_parts_eq_iff_path_eq(a, b);
}

proof fn lemma_comps_shift(t: Seq<char>, g: Seq<char>, d: int, i: int, cur: Seq<char>)
    requires
        0 <= d,
        0 <= i <= g.len(),
        t.len() == d + g.len(),
        forall|q: int| 0 <= q < g.len() ==> t[d + q] == g[q],
    ensures
        comps_acc(t, d + i, cur) == comps_acc(g, i, cur),
    decreases g.len() - i,
{
    if i < g.len() {
        if g[i] == '/' {
            lemma_comps_shift(t, g, d, i + 1, Seq::<char>::empty());
        } else {
            lemma_comps_shift(t, g, d, i + 1, cur.push(g[i]));
        }
    }
}

proof fn lemma_comps_prefix_sep(b: Seq<char>, g: Seq<char>, i: int, cur: Seq<char>)
    requires
        0 <= i <= b.len(),
    ensures
        comps_acc(b + seq!['/'] + g, i, cur) == comps_acc(b, i, cur) + kept_segments(g),
    decreases b.len() - i,
{
    let t = b + seq!['/'] + g;
    assert(t.len() == b.len() + 1 + g.len());
    assert(forall|q: int| 0 <= q < b.len() ==> t[q] == b[q]);
    assert(t[b.len() as int] == '/');
    assert(forall|q: int| 0 <= q < g.len() ==> t[b.len() + 1 + q] == g[q]);
    if i == b.len() {
        lemma_comps_shift(t, g, b.len() + 1 as int, 0, Seq::<char>::empty());
        assert(comps_acc(t, i, cur) == flush_seg(cur) + comps_acc(t, b.len() + 1 as int,
            Seq::<char>::empty()));
        assert(comps_acc(b, i, cur) == flush_seg(cur));
    } else {
        if b[i] == '/' {
            lemma_comps_prefix_sep(b, g, i + 1, Seq::<char>::empty());
            assert(flush_seg(cur) + (comps_acc(b, i + 1, Seq::<char>::empty()) + kept_segments(g))
                =~= (flush_seg(cur) + comps_acc(b, i + 1, Seq::<char>::empty())) + kept_segments(
                g,
            ));
        } else {
            lemma_comps_prefix_sep(b, g, i + 1, cur.push(b[i]));
        }
    }
}

proof fn lemma_comps_prefix_flush(b: Seq<char>, g: Seq<char>, i: int, cur: Seq<char>)
    requires
        b.len() > 0,
        b[b.len() - 1] == '/',
        0 <= i < b.len(),
    ensures
        comps_acc(b + g, i, cur) == comps_acc(b, i, cur) + kept_segments(g),
    decreases b.len() - i,
{
    let t = b + g;
    assert(t.len() == b.len() + g.len());
    assert(forall|q: int| 0 <= q < b.len() ==> t[q] == b[q]);
    assert(forall|q: int| 0 <= q < g.len() ==> t[b.len() + q] == g[q]);
    if i == b.len() - 1 {
        lemma_comps_shift(t, g, b.len() as int, 0, Seq::<char>::empty());
        assert(comps_acc(t, i, cur) == flush_seg(cur) + comps_acc(t, b.len() as int,
            Seq::<char>::empty()));
        assert(comps_acc(b, i, cur) == flush_seg(cur) + comps_acc(b, b.len() as int,
            Seq::<char>::empty()));
    } else {
        if b[i] == '/' {
            lemma_comps_prefix_flush(b, g, i + 1, Seq::<char>::empty());
            assert(flush_seg(cur) + (comps_acc(b, i + 1, Seq::<char>::empty()) + kept_segments(g))
                =~= (flush_seg(cur) + comps_acc(b, i + 1, Seq::<char>::empty())) + kept_segments(
                g,
            ));
        } else {
            lemma_comps_prefix_flush(b, g, i + 1, cur.push(b[i]));
        }
    }
}

/// Law: joining funnels into the component decomposition that equality and
/// ordering are decided over; a joined buffer decomposes into the base's
/// meaningful segments followed by the segment's own, and keeps the base's
/// root and current-directory markers (the base being empty is the one case
/// where the segment supplies them).
pub proof fn lemma_joined_components(b: Seq<char>, g: Seq<char>)
    requires
        !has_root(g),
    ensures
        kept_segments(joined(b, g)) == kept_segments(b) + kept_segments(g),
        has_root(joined(b, g)) == if b.len() == 0 {
            has_root(g)
        } else {
            has_root(b)
        },
        cur_dir(joined(b, g)) == if b.len() == 0 {
            cur_dir(g)
        } else {
            cur_dir(b)
        },
{
    if b.len() == 0 {
        assert(kept_segments(b) + kept_segments(g) =~= kept_segments(g));
    } else if b[b.len() - 1] == '/' {
        let t = b + g;
        lemma_comps_prefix_flush(b, g, 0, Seq::<char>::empty());
        assert(t[0] == b[0]);
        if b.len() >= 2 {
            assert(t[1] == b[1]);
        } else {
            assert(has_root(b));
        }
    } else {
        let t = b + seq!['/'] + g;
        lemma_comps_prefix_sep(b, g, 0, Seq::<char>::empty());
        assert(joined(b, g) == t);
        assert(t[0] == b[0]);
        if b.len() >= 2 {
            assert(t[1] == b[1]);
        } else {
            assert(t[1] == '/');
        }
    }
}

proof fn lemma_keepable_comps_nonempty(s: Seq<char>, i: int, cur: Seq<char>)
    requires
        0 <= i <= s.len(),
        cur.len() > 0,
        cur != seq!['.'],
    ensures
        comps_acc(s, i, cur).len() > 0,
    decreases s.len() - i,
{
    if i < s.len() && s[i] != '/' {
        assert(cur.push(s[i]) != seq!['.']) by {
            assert(cur.push(s[i]).len() >= 2);
        }
        lemma_keepable_comps_nonempty(s, i + 1, cur.push(s[i]));
    }
}

/// A relative path without the current-directory marker is either empty or
/// holds at least one meaningful segment.
pub proof fn lemma_nonempty_relative_has_segments(b: Seq<char>)
    requires
        b.len() > 0,
        !has_root(b),
        !cur_dir(b),
    ensures
        kept_segments(b).len() > 0,
{
    assert(b[0] != '/');
    if b[0] != '.' {
        assert(seq![b[0]] != seq!['.']) by {
            assert(seq![b[0]][0] == b[0]);
        }
        lemma_keepable_comps_nonempty(b, 1, seq![b[0]]);
        assert(comps_acc(b, 0, Seq::<char>::empty()) == comps_acc(b, 1, seq![b[0]]));
    } else {
        assert(b.len() >= 2 && b[1] != '/');
        assert(comps_acc(b, 0, Seq::<char>::empty()) == comps_acc(b, 1, seq!['.']));
        assert(comps_acc(b, 1, seq!['.']) == comps_acc(b, 2, seq!['.'].push(b[1])));
        assert(seq!['.'].push(b[1]) != seq!['.']) by {
            assert(seq!['.'].push(b[1]).len() == 2);
        }
        lemma_keepable_comps_nonempty(b, 2, seq!['.'].push(b[1]));
    }
}

/// Law: the join respects component-based equality; joining one relative
/// segment onto two equal buffers gives equal buffers again.
pub proof fn lemma_join_respects_equality(a: Seq<char>, b: Seq<char>, g: Seq<char>)
    requires
        path_eq(a, b),
        !has_root(g),
    ensures
        path_eq(joined(a, g), joined(b, g)),
{
    lemma_joined_components(a, g);
    lemma_joined_components(b, g);
    if a.len() == 0 && b.len() > 0 {
        lemma_nonempty_relative_has_segments(b);
    }
    if b.len() == 0 && a.len() > 0 {
        lemma_nonempty_relative_has_segments(a);
    }
}

} // verus!

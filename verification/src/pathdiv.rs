//! An owned, mutable path buffer joined with a terse "divide" operation.
//!
//! [`PathDiv`] owns a text buffer and mutates it with [`PathDiv::push`],
//! [`PathDiv::pop`], [`PathDiv::set_file_name`] and
//! [`PathDiv::set_extension`]. The join operation comes in three forms —
//! consuming ([`PathDiv::div`]), borrowing ([`PathDiv::div_ref`]) and
//! in place ([`PathDiv::div_assign`]) — and all three funnel through the
//! same push rule, [`crate::model::joined`]. Equality is decided over the
//! decomposed component sequence, not over the raw text.

use std::cmp::Ordering;

use vstd::prelude::*;
use vstd::string::StrSliceExecFns;
use vstd::string::StringExecFns;

use crate::model::chars_cmp;
use crate::model::comps_acc;
use crate::model::cur_dir;
use crate::model::file_name_of;
use crate::model::flush_seg;
use crate::model::has_root;
use crate::model::hash_chars;
use crate::model::hash_mix;
use crate::model::hash_part;
use crate::model::hash_parts;
use crate::model::joined;
use crate::model::joined_all;
use crate::model::kept_segments;
use crate::model::last_dot_in;
use crate::model::lemma_seg_start_le;
use crate::model::lemma_trim_end_stops_off_sep;
use crate::model::part_cmp;
use crate::model::part_of;
use crate::model::part_rank;
use crate::model::parts;
use crate::model::parts_cmp;
use crate::model::path_cmp;
use crate::model::path_eq;
use crate::model::path_hash;
use crate::model::PathPart;
use crate::model::pop_len;
use crate::model::root_run;
use crate::model::seg_start;
use crate::model::sep_run_end;
use crate::model::stem_end;
use crate::model::trim_end;
use crate::model::trim_parent;
use crate::model::with_extension;
use crate::model::with_file_name;

verus! {

/// The error of [`PathDiv::from_str`]. Textual parsing of a path never
/// fails, and the contract of [`PathDiv::from_str`] rules this error out;
/// the type exists for symmetry with fallible parsing interfaces.
#[derive(Debug)]
pub struct NoError;

/// An owned, growable path buffer. Its view is the sequence of characters
/// of the buffer's text, written with the `/` separator convention.
#[derive(Debug, Clone)]
pub struct PathDiv {
    buf: String,
}

impl View for PathDiv {
    type V = Seq<char>;

    closed spec fn view(&self) -> Seq<char> {
        self.buf@
    }
}

/// The character count of the text.
fn text_len(s: &str) -> (n: usize)
    ensures
        n == s@.len(),
{
    s.unicode_len()
}

/// The character at position `i`.
fn char_at(s: &str, i: usize) -> (c: char)
    requires
        i < s@.len(),
    ensures
        c == s@[i as int],
{
    s.get_char(i)
}

/// Whether the text starts with the separator.
fn rooted(s: &str) -> (b: bool)
    ensures
        b == has_root(s@),
{
    let n = text_len(s);
    n > 0 && char_at(s, 0) == '/'
}

/// The end of the last component of `s[..j]`, as [`trim_end`] defines it.
fn trim_end_exec(s: &str, j: usize, rt: bool) -> (r: usize)
    requires
        j <= s@.len(),
        rt == has_root(s@),
    ensures
        r as int == trim_end(s@, j as int),
        r <= j,
    decreases j,
{
    if j == 0 {
        0
    } else {
        let c = char_at(s, j - 1);
        if c == '/' {
            trim_end_exec(s, j - 1, rt)
        } else if c == '.' && (j == 1 || char_at(s, j - 2) == '/') && !(j == 1 && !rt) {
            trim_end_exec(s, j - 1, rt)
        } else {
            j
        }
    }
}

/// The start of the component ending at `j`, as [`seg_start`] defines it.
fn seg_start_exec(s: &str, j: usize) -> (r: usize)
    requires
        j <= s@.len(),
    ensures
        r as int == seg_start(s@, j as int),
        r <= j,
    decreases j,
{
    if j == 0 {
        0
    } else if char_at(s, j - 1) == '/' {
        j
    } else {
        seg_start_exec(s, j - 1)
    }
}

/// The end of the separator run starting at `i`, as [`sep_run_end`] defines it.
fn sep_run_end_exec(s: &str, i: usize) -> (r: usize)
    requires
        i <= s@.len(),
    ensures
        r as int == sep_run_end(s@, i as int),
        i <= r <= s@.len(),
    decreases s@.len() - i,
{
    let n = text_len(s);
    if i >= n || char_at(s, i) != '/' {
        i
    } else {
        sep_run_end_exec(s, i + 1)
    }
}

/// The parent length for the component starting at `i`, as [`trim_parent`]
/// defines it.
fn trim_parent_exec(s: &str, i: usize, rt: bool, rr: usize) -> (r: usize)
    requires
        i <= s@.len(),
        rt == has_root(s@),
        rr as int == root_run(s@),
    ensures
        r as int == trim_parent(s@, i as int),
        r <= i,
    decreases i,
{
    if i == 0 {
        0
    } else if i <= rr {
        i
    } else {
        let c = char_at(s, i - 1);
        if c == '/' {
            trim_parent_exec(s, i - 1, rt, rr)
        } else if c == '.' && (i == 1 || char_at(s, i - 2) == '/') && !(i == 1 && !rt) {
            trim_parent_exec(s, i - 1, rt, rr)
        } else {
            i
        }
    }
}

/// The bounds of the final file name in the text: `None` when the path has
/// no component besides a root, or when the last component is the
/// current-directory or parent-directory marker.
fn file_name_bounds(s: &str) -> (r: Option<(usize, usize)>)
    ensures
        match r {
            Option::Some(p) => {
                &&& file_name_of(s@) is Some
                &&& p.1 as int == trim_end(s@, s@.len() as int)
                &&& p.0 as int == seg_start(s@, p.1 as int)
                &&& p.0 < p.1 <= s@.len()
            },
            Option::None => file_name_of(s@) is None,
        },
{
    let rt = rooted(s);
    let n = text_len(s);
    let j = trim_end_exec(s, n, rt);
    if j == 0 {
        None
    } else {
        proof {
            lemma_trim_end_stops_off_sep(s@, s@.len() as int);
            lemma_seg_start_le(s@, j as int);
        }
        let i = seg_start_exec(s, j);
        let ghost g = s@.subrange(i as int, j as int);
        if j - i == 1 && char_at(s, i) == '.' {
            proof {
                assert(g =~= seq!['.']);
            }
            None
        } else if j - i == 2 && char_at(s, i) == '.' && char_at(s, i + 1) == '.' {
            proof {
                assert(g =~= seq!['.', '.']);
            }
            None
        } else {
            proof {
                assert(g.len() == j - i);
                assert(g != seq!['.']) by {
                    if g == seq!['.'] {
                        assert(g[0] == s@[i as int]);
                    }
                }
                assert(g != seq!['.', '.']) by {
                    if g == seq!['.', '.'] {
                        assert(g[0] == s@[i as int]);
                        assert(g[1] == s@[i as int + 1]);
                    }
                }
            }
            Some((i, j))
        }
    }
}

/// The position right after the final file name's stem: the dot beginning
/// the extension when the component `s[i..t]` has one, scanning from `t`.
fn last_dot_exec(s: &str, i: usize, t: usize) -> (r: Option<usize>)
    requires
        i <= t <= s@.len(),
    ensures
        match r {
            Option::Some(p) => p as int == last_dot_in(s@, i as int, t as int) && i < p < t,
            Option::None => last_dot_in(s@, i as int, t as int) == -1,
        },
    decreases t,
{
    if t - i <= 1 {
        None
    } else if char_at(s, t - 1) == '.' {
        Some(t - 1)
    } else {
        last_dot_exec(s, i, t - 1)
    }
}

/// Relies on `String::into_boxed_str`: the boxed text slice holds exactly
/// the characters of the string.
#[verifier::external_body]
fn string_into_boxed_str(s: String) -> (r: Box<str>)
    ensures
        r@ == s@,
{
    s.into_boxed_str()
}

impl PathDiv {
    /// An empty path buffer.
    pub fn new() -> (r: PathDiv)
        ensures
            r@ == Seq::<char>::empty(),
    {
        PathDiv { buf: String::new() }
    }

    /// A path buffer holding exactly the given text. Construction is total:
    /// every text is accepted as a path.
    pub fn from(s: &str) -> (r: PathDiv)
        ensures
            r@ == s@,
    {
        PathDiv { buf: s.to_owned() }
    }

    /// A path buffer taking over the given owned text; the buffer is moved,
    /// not copied, with the same total-construction guarantee as
    /// [`PathDiv::from`].
    pub fn from_string(s: String) -> (r: PathDiv)
        ensures
            r@ == s@,
    {
        PathDiv { buf: s }
    }

    /// Textual parsing of a path, which never fails; the error type is
    /// uninhabited.
    pub fn from_str(s: &str) -> (r: Result<PathDiv, NoError>)
        ensures
            match r {
                Result::Ok(p) => p@ == s@,
                Result::Err(_) => false,
            },
    {
        Ok(PathDiv::from(s))
    }

    /// A read-only view of the buffer's text, without copying.
    pub fn as_path(&self) -> (r: &str)
        ensures
            r@ == self@,
    {
        self.buf.as_str()
    }

    /// The buffer rendered as text. A buffer of characters always renders,
    /// so the result is never `None`.
    pub fn to_str(&self) -> (r: Option<String>)
        ensures
            match r {
                Option::Some(t) => t@ == self@,
                Option::None => false,
            },
    {
        Some(self.buf.clone())
    }

    /// Appends a segment following the push rule: an absolute segment
    /// replaces the buffer; otherwise the segment is appended, with a
    /// separator in between unless the buffer is empty or already ends with
    /// a separator.
    pub fn push(&mut self, path: &str)
        ensures
            final(self)@ == joined(old(self)@, path@),
    {
        if rooted(path) {
            self.buf = path.to_owned();
        } else {
            let n = text_len(self.buf.as_str());
            if n > 0 && char_at(self.buf.as_str(), n - 1) != '/' {
                self.buf.append("/");
            }
            self.buf.append(path);
            proof {
                reveal_strlit("/");
                assert("/"@ =~= seq!['/']);
                assert(self@ =~= joined(old(self)@, path@));
            }
        }
    }

    /// Removes the last component, truncating the buffer to its parent, and
    /// reports whether a removal occurred: `false` exactly when the buffer
    /// has no component besides a root (it is empty or already at its root).
    pub fn pop(&mut self) -> (r: bool)
        ensures
            r == (pop_len(old(self)@) is Some),
            match pop_len(old(self)@) {
                Option::Some(k) => final(self)@ == old(self)@.take(k),
                Option::None => final(self)@ == old(self)@,
            },
    {
        let rt = rooted(self.buf.as_str());
        let n = text_len(self.buf.as_str());
        let j = trim_end_exec(self.buf.as_str(), n, rt);
        if j == 0 {
            false
        } else {
            let i = seg_start_exec(self.buf.as_str(), j);
            let rr = sep_run_end_exec(self.buf.as_str(), 0);
            let k = trim_parent_exec(self.buf.as_str(), i, rt, rr);
            let t = self.buf.as_str().substring_char(0, k).to_owned();
            self.buf = t;
            proof {
                assert(pop_len(old(self)@) == Option::Some(k as int));
                assert(old(self)@.take(k as int) =~= old(self)@.subrange(0, k as int));
            }
            true
        }
    }

    /// Replaces the final file name with `name`; when the buffer has no
    /// final file name (it is empty, a bare root, or ends in `..`), `name`
    /// is simply pushed.
    pub fn set_file_name(&mut self, name: &str)
        ensures
            final(self)@ == with_file_name(old(self)@, name@),
    {
        let fb = file_name_bounds(self.buf.as_str());
        if fb.is_some() {
            let _ = self.pop();
        }
        self.push(name);
    }

    /// Replaces (or adds) the extension of the final file name; an empty
    /// `extension` removes the existing one. Reports `false` exactly when
    /// the buffer has no final file name to attach an extension to.
    pub fn set_extension(&mut self, extension: &str) -> (r: bool)
        ensures
            r == (file_name_of(old(self)@) is Some),
            final(self)@ == with_extension(old(self)@, extension@),
    {
        let fb = file_name_bounds(self.buf.as_str());
        match fb {
            None => false,
            Some((i, j)) => {
                let se = match last_dot_exec(self.buf.as_str(), i, j) {
                    None => j,
                    Some(p) => p,
                };
                proof {
                    assert(se as int == stem_end(self@, i as int, j as int));
                }
                let t = self.buf.as_str().substring_char(0, se).to_owned();
                self.buf = t;
                if !extension.is_empty() {
                    self.buf.append(".");
                    self.buf.append(extension);
                }
                proof {
                    reveal_strlit(".");
                    assert("."@ =~= seq!['.']);
                    assert(old(self)@.take(se as int) =~= old(self)@.subrange(0, se as int));
                    assert(self@ =~= with_extension(old(self)@, extension@));
                }
                true
            },
        }
    }

    /// The join operation, consuming form: pushes `rhs` onto the buffer and
    /// returns it, enabling fluent chains.
    pub fn div(self, rhs: &str) -> (r: PathDiv)
        ensures
            r@ == joined(self@, rhs@),
    {
        let mut p = self;
        p.push(rhs);
        p
    }

    /// The join operation, borrowing form: duplicates the buffer, pushes
    /// `rhs` onto the duplicate, and returns it. The operand is borrowed
    /// read-only and is left unchanged.
    pub fn div_ref(&self, rhs: &str) -> (r: PathDiv)
        ensures
            r@ == joined(self@, rhs@),
    {
        let mut p = PathDiv { buf: self.buf.clone() };
        p.push(rhs);
        p
    }

    /// The join operation, in-place form: mutates the buffer exactly as
    /// [`PathDiv::push`] does.
    pub fn div_assign(&mut self, rhs: &str)
        ensures
            final(self)@ == joined(old(self)@, rhs@),
    {
        self.push(rhs);
    }

    /// Pushes every element of `paths` in order.
    pub fn extend(&mut self, paths: &Vec<String>)
        ensures
            final(self)@ == joined_all(old(self)@, paths.deep_view()),
    {
        let ghost orig = self@;
        let mut idx: usize = 0;
        proof {
            assert(paths.deep_view().skip(0) =~= paths.deep_view());
        }
        while idx < paths.len()
            invariant
                idx <= paths.len(),
                joined_all(orig, paths.deep_view()) == joined_all(
                    self@,
                    paths.deep_view().skip(idx as int),
                ),
            decreases paths.len() - idx,
        {
            let ghost prev = self@;
            let ghost rest = paths.deep_view().skip(idx as int);
            self.push(paths[idx].as_str());
            proof {
                assert(rest[0] == paths.deep_view()[idx as int]);
                assert(rest.drop_first() =~= paths.deep_view().skip(idx as int + 1));
                assert(joined_all(prev, rest) == joined_all(self@, rest.drop_first()));
            }
            idx += 1;
        }
        proof {
            assert(paths.deep_view().skip(paths.len() as int) =~= Seq::<Seq<char>>::empty());
        }
    }

    /// A path buffer built by pushing every element of `paths`, in order,
    /// onto an empty buffer.
    pub fn from_iter(paths: &Vec<String>) -> (r: PathDiv)
        ensures
            r@ == joined_all(Seq::<char>::empty(), paths.deep_view()),
    {
        let mut p = PathDiv::new();
        p.extend(paths);
        p
    }

    /// Consumes the buffer and yields its owned text.
    pub fn into_os_string(self) -> (r: String)
        ensures
            r@ == self@,
    {
        self.buf
    }

    /// Consumes the buffer and yields an immutable boxed view of the same
    /// text.
    pub fn into_boxed_path(self) -> (r: Box<str>)
        ensures
            r@ == self@,
    {
        string_into_boxed_str(self.buf)
    }

    /// Component-based comparison against bare text, the same relation that
    /// `==` decides between two `PathDiv` values; every comparison form
    /// funnels through this one relation.
    pub fn eq_str(&self, other: &str) -> (r: bool)
        ensures
            r == path_eq(self@, other@),
    {
        paths_eq(self.buf.as_str(), other)
    }

    /// Component-based three-way comparison against bare text, the same
    /// relation that `partial_cmp` decides between two `PathDiv` values.
    pub fn cmp_str(&self, other: &str) -> (r: Ordering)
        ensures
            r == ordering_of(path_cmp(self@, other@)),
    {
        let c = paths_cmp(self.buf.as_str(), other);
        if c < 0 {
            Ordering::Less
        } else if c == 0 {
            Ordering::Equal
        } else {
            Ordering::Greater
        }
    }

    /// Component-based hash, computed over the same decomposed component
    /// sequence that equality is decided over: buffers that compare equal
    /// hash identically.
    pub fn hash(&self) -> (r: u64)
        ensures
            r == path_hash(self@),
    {
        let u = parts_exec(self.buf.as_str());
        let ghost ps = parts(self@);
        let mut h: u64 = 7;
        let mut t: usize = 0;
        while t < u.len()
            invariant
                t <= u@.len(),
                u.deep_view() == ps,
                hash_parts(ps, 0, 7) == hash_parts(ps, t as int, h),
            decreases u.len() - t,
        {
            proof {
                assert(ps[t as int] == u@[t as int]@);
            }
            h = hash_part_exec(&u[t], h);
            t += 1;
        }
        h
    }
}

impl Default for PathDiv {
    /// An empty path buffer.
    fn default() -> (r: Self)
        ensures
            r@ == Seq::<char>::empty(),
    {
        PathDiv::new()
    }
}

/// Whether the text starts with the current-directory marker, as
/// [`cur_dir`] defines it.
fn cur_dir_exec(s: &str) -> (b: bool)
    ensures
        b == cur_dir(s@),
{
    let n = text_len(s);
    if n == 0 {
        return false;
    }
    let c0 = char_at(s, 0);
    if c0 != '.' {
        return false;
    }
    if n == 1 {
        return true;
    }
    char_at(s, 1) == '/'
}

/// The meaningful segments of the text, as [`kept_segments`] defines them.
fn comps_exec(s: &str) -> (res: Vec<Vec<char>>)
    ensures
        res.deep_view() == kept_segments(s@),
{
    let n = text_len(s);
    let mut res: Vec<Vec<char>> = Vec::new();
    let mut cur: Vec<char> = Vec::new();
    let mut idx: usize = 0;
    proof {
        assert(res.deep_view() =~= Seq::<Seq<char>>::empty());
        assert(kept_segments(s@) =~= res.deep_view() + comps_acc(s@, 0, cur@));
    }
    while idx < n
        invariant
            idx <= n,
            n == s@.len(),
            kept_segments(s@) == res.deep_view() + comps_acc(s@, idx as int, cur@),
        decreases n - idx,
    {
        let ghost res0 = res.deep_view();
        let ghost cur0 = cur@;
        let c = char_at(s, idx);
        if c == '/' {
            if cur.len() > 0 && !(cur.len() == 1 && cur[0] == '.') {
                proof {
                    assert(cur0 != seq!['.']) by {
                        if cur0 == seq!['.'] {
                            assert(cur0.len() == 1);
                        }
                    }
                    assert(flush_seg(cur0) =~= seq![cur0]);
                }
                res.push(cur);
                cur = Vec::new();
                proof {
                    assert(res.deep_view() =~~= res0.push(cur0));
                    assert(res.deep_view() + comps_acc(s@, idx as int + 1, cur@) =~= res0
                        + comps_acc(s@, idx as int, cur0));
                }
            } else {
                cur = Vec::new();
                proof {
                    if cur0.len() > 0 {
                        assert(cur0 =~= seq!['.']);
                    }
                    assert(flush_seg(cur0) =~= Seq::<Seq<char>>::empty());
                    assert(res.deep_view() + comps_acc(s@, idx as int + 1, cur@) =~= res0
                        + comps_acc(s@, idx as int, cur0));
                }
            }
        } else {
            cur.push(c);
            proof {
                assert(cur@ =~= cur0.push(s@[idx as int]));
                assert(comps_acc(s@, idx as int + 1, cur@) == comps_acc(s@, idx as int, cur0));
            }
        }
        idx += 1;
    }
    let ghost resn = res.deep_view();
    let ghost curn = cur@;
    if cur.len() > 0 && !(cur.len() == 1 && cur[0] == '.') {
        proof {
            assert(curn != seq!['.']) by {
                if curn == seq!['.'] {
                    assert(curn.len() == 1);
                }
            }
            assert(flush_seg(curn) =~= seq![curn]);
        }
        res.push(cur);
        proof {
            assert(res.deep_view() =~~= resn.push(curn));
            assert(res.deep_view() =~= resn + comps_acc(s@, n as int, curn));
        }
    } else {
        proof {
            if curn.len() > 0 {
                assert(curn =~= seq!['.']);
            }
            assert(flush_seg(curn) =~= Seq::<Seq<char>>::empty());
            assert(res.deep_view() =~= resn + comps_acc(s@, n as int, curn));
        }
    }
    res
}

/// Character-wise equality of two gathered segments.
fn chars_eq(a: &Vec<char>, b: &Vec<char>) -> (r: bool)
    ensures
        r == (a@ == b@),
{
    if a.len() != b.len() {
        return false;
    }
    let mut t: usize = 0;
    while t < a.len()
        invariant
            t <= a.len(),
            a@.len() == b@.len(),
            forall|q: int| 0 <= q < t ==> a@[q] == b@[q],
        decreases a.len() - t,
    {
        if a[t] != b[t] {
            return false;
        }
        t += 1;
    }
    proof {
        assert(a@ =~= b@);
    }
    true
}

/// Element-wise equality of two segment lists.
fn comp_lists_eq(a: &Vec<Vec<char>>, b: &Vec<Vec<char>>) -> (r: bool)
    ensures
        r == (a.deep_view() == b.deep_view()),
{
    if a.len() != b.len() {
        proof {
            assert(a.deep_view().len() != b.deep_view().len());
        }
        return false;
    }
    let mut t: usize = 0;
    while t < a.len()
        invariant
            t <= a.len(),
            a@.len() == b@.len(),
            forall|q: int| 0 <= q < t ==> a.deep_view()[q] == b.deep_view()[q],
        decreases a.len() - t,
    {
        let same = chars_eq(&a[t], &b[t]);
        proof {
            assert(a.deep_view()[t as int] =~= a@[t as int]@);
            assert(b.deep_view()[t as int] =~= b@[t as int]@);
        }
        if !same {
            return false;
        }
        t += 1;
    }
    proof {
        assert(a.deep_view() =~= b.deep_view());
    }
    true
}

/// The shared comparison: component-based equality of two path texts, the
/// one relation behind every equality form, as [`path_eq`] defines it.
fn paths_eq(a: &str, b: &str) -> (r: bool)
    ensures
        r == path_eq(a@, b@),
{
    if rooted(a) != rooted(b) {
        return false;
    }
    if cur_dir_exec(a) != cur_dir_exec(b) {
        return false;
    }
    let va = comps_exec(a);
    let vb = comps_exec(b);
    comp_lists_eq(&va, &vb)
}

/// One component of a decomposed path, carried in executable form.
enum Part {
    Root,
    Here,
    Up,
    Name(Vec<char>),
}

impl View for Part {
    type V = PathPart;

    closed spec fn view(&self) -> PathPart {
        match self {
            Part::Root => PathPart::Root,
            Part::Here => PathPart::Here,
            Part::Up => PathPart::Up,
            Part::Name(v) => PathPart::Name(v@),
        }
    }
}

impl DeepView for Part {
    type V = PathPart;

    closed spec fn deep_view(&self) -> PathPart {
        self.view()
    }
}

/// An owned copy of a gathered segment.
fn copy_chars(v: &Vec<char>) -> (r: Vec<char>)
    ensures
        r@ == v@,
{
    let mut r: Vec<char> = Vec::new();
    let mut t: usize = 0;
    while t < v.len()
        invariant
            t <= v@.len(),
            r@ == v@.take(t as int),
        decreases v.len() - t,
    {
        r.push(v[t]);
        proof {
            assert(r@ =~= v@.take(t as int + 1));
        }
        t += 1;
    }
    proof {
        assert(v@.take(v@.len() as int) =~= v@);
    }
    r
}

/// The full component sequence of the text, as [`parts`] defines it.
fn parts_exec(s: &str) -> (res: Vec<Part>)
    ensures
        res.deep_view() == parts(s@),
{
    let ghost kept = kept_segments(s@);
    let ghost mapped = kept.map_values(|g: Seq<char>| part_of(g));
    let mut res: Vec<Part> = Vec::new();
    if rooted(s) {
        res.push(Part::Root);
    }
    if cur_dir_exec(s) {
        res.push(Part::Here);
    }
    let ghost head = res.deep_view();
    proof {
        assert(head + mapped.take(0) =~= head);
    }
    let comps = comps_exec(s);
    let mut t: usize = 0;
    while t < comps.len()
        invariant
            t <= comps@.len(),
            comps.deep_view() == kept,
            mapped == kept.map_values(|g: Seq<char>| part_of(g)),
            res.deep_view() == head + mapped.take(t as int),
        decreases comps.len() - t,
    {
        let ghost res0 = res.deep_view();
        let g = &comps[t];
        proof {
            assert(comps.deep_view()[t as int] =~= comps@[t as int]@);
            assert(g@ == kept[t as int]);
        }
        if g.len() == 2 && {
            let c0 = g[0];
            let c1 = g[1];
            c0 == '.' && c1 == '.'
        } {
            proof {
                assert(g@ =~= seq!['.', '.']);
            }
            res.push(Part::Up);
        } else {
            proof {
                assert(g@ != seq!['.', '.']) by {
                    if g@ == seq!['.', '.'] {
                        assert(g@.len() == 2);
                        assert(g@[0] == '.' && g@[1] == '.');
                    }
                }
            }
            let copied = copy_chars(g);
            res.push(Part::Name(copied));
        }
        proof {
            assert(mapped[t as int] == part_of(kept[t as int]));
            assert(res.deep_view() =~~= res0.push(part_of(kept[t as int])));
            assert(res.deep_view() =~~= head + mapped.take(t as int + 1));
        }
        t += 1;
    }
    proof {
        assert(mapped.take(kept.len() as int) =~= mapped);
        assert(res.deep_view() =~~= parts(s@));
    }
    res
}

/// The rank of a component, as [`part_rank`] defines it.
fn part_rank_exec(x: &Part) -> (r: u8)
    ensures
        r as int == part_rank(x@),
{
    match x {
        Part::Root => 0,
        Part::Here => 1,
        Part::Up => 2,
        Part::Name(_) => 3,
    }
}

/// Three-way comparison of two gathered segments, as [`chars_cmp`] defines
/// it.
fn chars_cmp_exec(a: &Vec<char>, b: &Vec<char>) -> (r: i8)
    ensures
        r as int == chars_cmp(a@, b@),
{
    let mut t: usize = 0;
    proof {
        assert(a@.skip(0) =~= a@);
        assert(b@.skip(0) =~= b@);
    }
    while t < a.len() && t < b.len()
        invariant
            t <= a@.len(),
            t <= b@.len(),
            chars_cmp(a@, b@) == chars_cmp(a@.skip(t as int), b@.skip(t as int)),
        decreases a.len() - t,
    {
        let ca = a[t];
        let cb = b[t];
        proof {
            let x = a@.skip(t as int);
            let y = b@.skip(t as int);
            assert(x[0] == a@[t as int]);
            assert(y[0] == b@[t as int]);
            if ca == cb {
                assert(x.drop_first() =~= a@.skip(t as int + 1));
                assert(y.drop_first() =~= b@.skip(t as int + 1));
            }
        }
        if ca != cb {
            if (ca as u32) < (cb as u32) {
                return -1;
            } else {
                return 1;
            }
        }
        t += 1;
    }
    proof {
        let x = a@.skip(t as int);
        let y = b@.skip(t as int);
        assert(x.len() == a@.len() - t);
        assert(y.len() == b@.len() - t);
    }
    if a.len() == b.len() {
        0
    } else if a.len() < b.len() {
        -1
    } else {
        1
    }
}

/// Three-way comparison of two components, as [`part_cmp`] defines it.
fn part_cmp_exec(x: &Part, y: &Part) -> (r: i8)
    ensures
        r as int == part_cmp(x@, y@),
{
    let rx = part_rank_exec(x);
    let ry = part_rank_exec(y);
    if rx < ry {
        -1
    } else if rx > ry {
        1
    } else {
        match (x, y) {
            (Part::Name(a), Part::Name(b)) => chars_cmp_exec(a, b),
            _ => 0,
        }
    }
}

/// Three-way lexicographic comparison of two component lists, as
/// [`parts_cmp`] defines it.
fn parts_cmp_exec(u: &Vec<Part>, v: &Vec<Part>) -> (r: i8)
    ensures
        r as int == parts_cmp(u.deep_view(), v.deep_view()),
{
    let mut t: usize = 0;
    proof {
        assert(u.deep_view().skip(0) =~= u.deep_view());
        assert(v.deep_view().skip(0) =~= v.deep_view());
    }
    while t < u.len() && t < v.len()
        invariant
            t <= u@.len(),
            t <= v@.len(),
            parts_cmp(u.deep_view(), v.deep_view()) == parts_cmp(
                u.deep_view().skip(t as int),
                v.deep_view().skip(t as int),
            ),
        decreases u.len() - t,
    {
        proof {
            let x = u.deep_view().skip(t as int);
            let y = v.deep_view().skip(t as int);
            assert(x[0] == u.deep_view()[t as int]);
            assert(y[0] == v.deep_view()[t as int]);
        }
        let c = part_cmp_exec(&u[t], &v[t]);
        proof {
            let x = u.deep_view().skip(t as int);
            let y = v.deep_view().skip(t as int);
            if c as int == 0 {
                assert(x.drop_first() =~= u.deep_view().skip(t as int + 1));
                assert(y.drop_first() =~= v.deep_view().skip(t as int + 1));
            }
        }
        if c != 0 {
            return c;
        }
        t += 1;
    }
    proof {
        let x = u.deep_view().skip(t as int);
        let y = v.deep_view().skip(t as int);
        assert(x.len() == u.deep_view().len() - t);
        assert(y.len() == v.deep_view().len() - t);
    }
    if u.len() == v.len() {
        0
    } else if u.len() < v.len() {
        -1
    } else {
        1
    }
}

/// The shared three-way comparison: component-based ordering of two path
/// texts, the one relation behind every ordering form, as [`path_cmp`]
/// defines it.
fn paths_cmp(a: &str, b: &str) -> (r: i8)
    ensures
        r as int == path_cmp(a@, b@),
{
    let u = parts_exec(a);
    let v = parts_exec(b);
    parts_cmp_exec(&u, &v)
}

/// The `Ordering` that a three-way comparison outcome stands for.
pub open spec fn ordering_of(c: int) -> Ordering {
    if c < 0 {
        Ordering::Less
    } else if c == 0 {
        Ordering::Equal
    } else {
        Ordering::Greater
    }
}

impl PartialOrd for PathDiv {
    /// Ordering over the decomposed component sequences of the two buffers:
    /// lexicographic, with the root marker first, then the
    /// current-directory marker, then the parent-directory marker, then
    /// named segments by their characters. Always `Some`.
    fn partial_cmp(&self, other: &Self) -> (r: Option<Ordering>) {
        let c = paths_cmp(self.buf.as_str(), other.buf.as_str());
        if c < 0 {
            Some(Ordering::Less)
        } else if c == 0 {
            Some(Ordering::Equal)
        } else {
            Some(Ordering::Greater)
        }
    }
}

impl vstd::std_specs::cmp::PartialOrdSpecImpl for PathDiv {
    open spec fn obeys_partial_cmp_spec() -> bool {
        true
    }

    open spec fn partial_cmp_spec(&self, other: &Self) -> Option<Ordering> {
        Some(ordering_of(path_cmp(self@, other@)))
    }
}

/// One mixing step, as [`hash_mix`] defines it.
fn hash_mix_exec(h: u64, d: u64) -> (r: u64)
    ensures
        r == hash_mix(h, d),
{
    h.wrapping_mul(31).wrapping_add(d)
}

/// A segment's characters folded into `h`, as [`hash_chars`] defines it.
fn hash_chars_exec(v: &Vec<char>, h0: u64) -> (r: u64)
    ensures
        r == hash_chars(v@, 0, h0),
{
    let mut h = h0;
    let mut t: usize = 0;
    while t < v.len()
        invariant
            t <= v@.len(),
            hash_chars(v@, 0, h0) == hash_chars(v@, t as int, h),
        decreases v.len() - t,
    {
        h = hash_mix_exec(h, (v[t] as u32) as u64);
        t += 1;
    }
    h
}

/// One component folded into `h`, as [`hash_part`] defines it.
fn hash_part_exec(x: &Part, h: u64) -> (r: u64)
    ensures
        r == hash_part(x@, h),
{
    match x {
        Part::Root => hash_mix_exec(h, 0),
        Part::Here => hash_mix_exec(h, 1),
        Part::Up => hash_mix_exec(h, 2),
        Part::Name(g) => hash_chars_exec(g, hash_mix_exec(h, 3)),
    }
}

impl PartialEq for PathDiv {
    /// Equality over the decomposed component sequences of the two buffers,
    /// not over the raw text.
    fn eq(&self, other: &Self) -> (r: bool) {
        paths_eq(self.buf.as_str(), other.buf.as_str())
    }
}

impl vstd::std_specs::cmp::PartialEqSpecImpl for PathDiv {
    open spec fn obeys_eq_spec() -> bool {
        true
    }

    open spec fn eq_spec(&self, other: &Self) -> bool {
        path_eq(self@, other@)
    }
}

impl Eq for PathDiv {}

} // verus!

//! Paths, held as strings, read as `std::path` reads them on Unix: joining,
//! splitting into components, stripping a directory prefix, and the order in
//! which paths sort.

use vstd::prelude::*;

use crate::text::chars_of;

verus! {

/// `base` joined with `rel`: an absolute `rel` replaces `base`; otherwise a
/// `/` is put between the two unless `base` is empty or already ends in one.
pub open spec fn spec_join(base: Seq<char>, rel: Seq<char>) -> Seq<char> {
    if rel.len() > 0 && rel[0] == '/' {
        rel
    } else if base.len() == 0 || base.last() == '/' {
        base + rel
    } else {
        base + seq!['/'] + rel
    }
}

/// Join `rel` onto `base`, the way `Path::join` does on Unix.
pub fn join(base: &str, rel: &str) -> (path: String)
    ensures
        path@ == spec_join(base@, rel@),
{
    let base_chars = chars_of(base);
    let rel_chars = chars_of(rel);
    if rel_chars.len() > 0 && rel_chars[0] == '/' {
        return rel.to_string();
    }
    let mut path = base.to_string();
    if base_chars.len() > 0 && base_chars[base_chars.len() - 1] != '/' {
        path.push('/');
    }
    path.append(rel);
    path
}

/// A component of a path, as `std::path::Component` has them on Unix. A
/// normal component carries its name.
pub enum Component<S> {
    RootDir,
    CurDir,
    ParentDir,
    Normal(S),
}

/// The view of a component held as character vectors.
pub open spec fn component_view(c: Component<Vec<char>>) -> Component<Seq<char>> {
    match c {
        Component::RootDir => Component::RootDir,
        Component::CurDir => Component::CurDir,
        Component::ParentDir => Component::ParentDir,
        Component::Normal(name) => Component::Normal(name@),
    }
}

/// A piece of a path's body, between separators, read as a component: an
/// empty piece (from repeated or trailing `/`) and `.` are none.
pub open spec fn body_component(piece: Seq<char>) -> Option<Component<Seq<char>>> {
    if piece.len() == 0 || piece == seq!['.'] {
        None
    } else if piece == seq!['.', '.'] {
        Some(Component::ParentDir)
    } else {
        Some(Component::Normal(piece))
    }
}

/// The path starts at the root.
pub open spec fn has_root(path: Seq<char>) -> bool {
    path.len() > 0 && path[0] == '/'
}

/// The path starts with a `.` of its own (`.` alone, or `./`), which is kept
/// as a current-directory component.
pub open spec fn has_cur_dir(path: Seq<char>) -> bool {
    path.len() > 0 && path[0] == '.' && (path.len() == 1 || path[1] == '/')
}

/// Where the body of the path, after a leading root or `.`, begins.
pub open spec fn body_start(path: Seq<char>) -> int {
    if has_root(path) || has_cur_dir(path) {
        1
    } else {
        0
    }
}

/// The components read before the body, each with the span of text it was
/// read from.
pub open spec fn front_components(path: Seq<char>) -> Seq<(Component<Seq<char>>, int, int)> {
    if has_root(path) {
        seq![(Component::RootDir, 0int, 1int)]
    } else if has_cur_dir(path) {
        seq![(Component::CurDir, 0int, 1int)]
    } else {
        Seq::empty()
    }
}

/// End the piece `start..end` of the body: keep it, with its span, if it is
/// a component.
pub open spec fn end_piece(
    path: Seq<char>,
    start: int,
    end: int,
    found: Seq<(Component<Seq<char>>, int, int)>,
) -> Seq<(Component<Seq<char>>, int, int)> {
    match body_component(path.subrange(start, end)) {
        Some(c) => found.push((c, start, end)),
        None => found,
    }
}

/// Read the body of `path` from position `i`, the current piece having begun
/// at `start`.
pub open spec fn scan_components(
    path: Seq<char>,
    i: int,
    start: int,
    found: Seq<(Component<Seq<char>>, int, int)>,
) -> Seq<(Component<Seq<char>>, int, int)>
    decreases path.len() - i,
{
    if i < 0 || i >= path.len() {
        end_piece(path, start, path.len() as int, found)
    } else if path[i] == '/' {
        scan_components(path, i + 1, i + 1, end_piece(path, start, i, found))
    } else {
        scan_components(path, i + 1, start, found)
    }
}

/// The components of a path with the span of text each was read from, in
/// the order `Path::components` yields them.
pub open spec fn parsed_components(path: Seq<char>) -> Seq<(Component<Seq<char>>, int, int)> {
    scan_components(path, body_start(path), body_start(path), front_components(path))
}

/// The components of a path, as `Path::components` yields them on Unix.
pub open spec fn spec_components(path: Seq<char>) -> Seq<Component<Seq<char>>> {
    parsed_components(path).map_values(|e: (Component<Seq<char>>, int, int)| e.0)
}

/// One component of a path and the span `start..end` of the path's
/// characters it was read from.
pub struct Span {
    pub component: Component<Vec<char>>,
    pub start: usize,
    pub end: usize,
}

/// The view of a span.
pub open spec fn span_view(s: Span) -> (Component<Seq<char>>, int, int) {
    (component_view(s.component), s.start as int, s.end as int)
}

/// A span lies within the path text `p`, and a normal component's name is
/// the text of its span.
pub open spec fn span_within(s: Span, p: Seq<char>) -> bool {
    &&& s.start <= s.end <= p.len()
    &&& match s.component {
        Component::Normal(name) => name@ == p.subrange(s.start as int, s.end as int),
        _ => true,
    }
}

/// The views of a list of spans.
pub open spec fn span_views(v: Seq<Span>) -> Seq<(Component<Seq<char>>, int, int)> {
    v.map_values(|s: Span| span_view(s))
}

/// The components of a list of spans.
pub open spec fn span_components(v: Seq<Span>) -> Seq<Component<Seq<char>>> {
    v.map_values(|s: Span| component_view(s.component))
}

/// Read a piece of the body as a component.
fn piece_component(piece: Vec<char>) -> (c: Option<Component<Vec<char>>>)
    ensures
        match c {
            Some(x) => body_component(piece@) == Some(component_view(x)) && match x {
                Component::Normal(name) => name@ == piece@,
                _ => true,
            },
            None => body_component(piece@) is None,
        },
{
    if piece.len() == 0 {
        return None;
    }
    if piece.len() == 1 && piece[0] == '.' {
        assert(piece@ =~= seq!['.']);
        return None;
    }
    assert(piece@ != seq!['.']) by {
        if piece@.len() == 1 {
            assert(piece@[0] != seq!['.'][0]);
        }
    }
    if piece.len() == 2 && piece[0] == '.' && piece[1] == '.' {
        assert(piece@ =~= seq!['.', '.']);
        return Some(Component::ParentDir);
    }
    assert(piece@ != seq!['.', '.']) by {
        if piece@.len() == 2 {
            assert(piece@[0] != seq!['.', '.'][0] || piece@[1] != seq!['.', '.'][1]);
        }
    }
    Some(Component::Normal(piece))
}

/// Split the characters of a path into its components, each with its span.
fn parse_components(p: &Vec<char>) -> (spans: Vec<Span>)
    ensures
        span_views(spans@) == parsed_components(p@),
        forall|k: int| 0 <= k < spans@.len() ==> span_within(#[trigger] spans@[k], p@),
{
    let mut spans: Vec<Span> = Vec::new();
    let n = p.len();
    let b: usize = if n > 0 && p[0] == '/' {
        spans.push(Span { component: Component::RootDir, start: 0, end: 1 });
        1
    } else if n > 0 && p[0] == '.' && (n == 1 || p[1] == '/') {
        spans.push(Span { component: Component::CurDir, start: 0, end: 1 });
        1
    } else {
        0
    };
    assert(span_views(spans@) =~= front_components(p@));
    let mut current: Vec<char> = Vec::new();
    let mut start: usize = b;
    let mut i: usize = b;
    assert(current@ =~= p@.subrange(start as int, i as int));
    while i < n
        invariant
            n == p@.len(),
            b == body_start(p@),
            b <= start <= i <= n,
            current@ == p@.subrange(start as int, i as int),
            scan_components(p@, i as int, start as int, span_views(spans@)) == parsed_components(p@),
            forall|k: int| 0 <= k < spans@.len() ==> span_within(#[trigger] spans@[k], p@),
        decreases n - i,
    {
        if p[i] == '/' {
            let ghost before = spans@;
            match piece_component(current) {
                Some(c) => {
                    spans.push(Span { component: c, start: start, end: i });
                    assert(span_views(spans@) =~= span_views(before).push(span_view(spans@.last())));
                },
                None => {},
            }
            assert(span_views(spans@) == end_piece(p@, start as int, i as int, span_views(before)));
            assert forall|k: int| 0 <= k < spans@.len() implies span_within(#[trigger] spans@[k], p@) by {
                if k < before.len() {
                    assert(spans@[k] == before[k]);
                }
            }
            current = Vec::new();
            start = i + 1;
            i = i + 1;
            assert(current@ =~= p@.subrange(start as int, i as int));
        } else {
            assert(p@.subrange(start as int, i + 1) =~= p@.subrange(start as int, i as int).push(p@[i as int]));
            current.push(p[i]);
            i = i + 1;
        }
    }
    let ghost before = spans@;
    match piece_component(current) {
        Some(c) => {
            spans.push(Span { component: c, start: start, end: n });
            assert(span_views(spans@) =~= span_views(before).push(span_view(spans@.last())));
        },
        None => {},
    }
    assert forall|k: int| 0 <= k < spans@.len() implies span_within(#[trigger] spans@[k], p@) by {
        if k < before.len() {
            assert(spans@[k] == before[k]);
        }
    }
    spans
}

/// The components of `path`, each with the span of text it was read from,
/// as `Path::components` yields them.
pub fn components(path: &str) -> (spans: Vec<Span>)
    ensures
        span_views(spans@) == parsed_components(path@),
        span_components(spans@) == spec_components(path@),
        forall|k: int| 0 <= k < spans@.len() ==> span_within(#[trigger] spans@[k], path@),
{
    let p = chars_of(path);
    let spans = parse_components(&p);
    assert(span_components(spans@) =~= spec_components(path@)) by {
        assert forall|k: int| 0 <= k < spans@.len() implies #[trigger] span_components(spans@)[k]
            == spec_components(path@)[k] by {
            assert(span_views(spans@)[k] == parsed_components(path@)[k]);
        }
    }
    spans
}

/// The final component of a path when it is a normal one, as
/// `Path::file_name` gives it.
pub open spec fn spec_file_name(path: Seq<char>) -> Option<Seq<char>> {
    let comps = spec_components(path);
    if comps.len() == 0 {
        None
    } else {
        match comps.last() {
            Component::Normal(name) => Some(name),
            _ => None,
        }
    }
}

/// A string holding the characters of `v`.
fn string_of(v: &Vec<char>) -> (s: String)
    ensures
        s@ == v@,
{
    let mut s = String::new();
    let mut k: usize = 0;
    while k < v.len()
        invariant
            k <= v.len(),
            s@ == v@.take(k as int),
        decreases v.len() - k,
    {
        assert(v@.take(k + 1) =~= v@.take(k as int).push(v@[k as int]));
        s.push(v[k]);
        k = k + 1;
    }
    assert(s@ =~= v@);
    s
}

/// The final component of `path`, as `Path::file_name` gives it.
pub fn file_name(path: &str) -> (name: Option<String>)
    ensures
        match name {
            Some(n) => spec_file_name(path@) == Some(n@),
            None => spec_file_name(path@) is None,
        },
{
    let spans = components(path);
    if spans.len() == 0 {
        return None;
    }
    let last = &spans[spans.len() - 1];
    assert(span_components(spans@)[spans@.len() - 1] == component_view(last.component));
    match &last.component {
        Component::Normal(n) => Some(string_of(n)),
        _ => None,
    }
}

/// A C source file: its file name is a non-empty stem followed by `.c`, so
/// that `Path::extension` gives `c`.
pub open spec fn spec_is_c_source(path: Seq<char>) -> bool {
    match spec_file_name(path) {
        Some(name) => name.len() >= 3 && name[name.len() - 2] == '.' && name.last() == 'c',
        None => false,
    }
}

/// Whether `path` names a C source file.
pub fn is_c_source(path: &str) -> (b: bool)
    ensures
        b == spec_is_c_source(path@),
{
    match file_name(path) {
        Some(name) => {
            let c = chars_of(name.as_str());
            c.len() >= 3 && c[c.len() - 2] == '.' && c[c.len() - 1] == 'c'
        },
        None => false,
    }
}

/// The piece `start..end` of `path` is empty or `.`: no component.
pub open spec fn skippable(path: Seq<char>, start: int, end: int) -> bool {
    end == start || (end == start + 1 && path[start] == '.')
}

/// Where the text left after a component begins once leading empty and `.`
/// pieces are dropped, as `Components::as_path` trims the front: `start` is
/// where the current piece began and `i` how far it has been read.
pub open spec fn trim_front(path: Seq<char>, start: int, i: int) -> int
    decreases path.len() - i,
{
    if i < 0 || i >= path.len() {
        if skippable(path, start, path.len() as int) {
            path.len() as int
        } else {
            start
        }
    } else if path[i] == '/' {
        if skippable(path, start, i) {
            trim_front(path, i + 1, i + 1)
        } else {
            start
        }
    } else {
        trim_front(path, start, i + 1)
    }
}

/// Where the text `lo..r` ends once trailing empty and `.` pieces are
/// dropped, as `Components::as_path` trims the back: the last piece is
/// `j..r`, or `lo..r` when no `/` is found.
pub open spec fn trim_back(path: Seq<char>, lo: int, r: int, j: int) -> int
    decreases j - lo,
{
    if j <= lo {
        if skippable(path, lo, r) {
            lo
        } else {
            r
        }
    } else if path[j - 1] == '/' {
        if skippable(path, j, r) {
            trim_back(path, lo, j - 1, j - 1)
        } else {
            r
        }
    } else {
        trim_back(path, lo, r, j - 1)
    }
}

/// The text of `path` left after its first `k` components, as the path that
/// `Path::strip_prefix` returns.
pub open spec fn spec_remainder(path: Seq<char>, k: int) -> Seq<char> {
    let n = path.len() as int;
    if k <= 0 {
        path.take(trim_back(path, body_start(path), n, n))
    } else {
        let q0 = parsed_components(path)[k - 1].2;
        let q = trim_front(path, q0, q0);
        path.subrange(q, trim_back(path, q, n, n))
    }
}

/// What is left of `path` once the components of `dir` are taken off its
/// front, or `None` when they are not its first components, as
/// `Path::strip_prefix` gives it.
pub open spec fn spec_strip_dir(path: Seq<char>, dir: Seq<char>) -> Option<Seq<char>> {
    let cp = spec_components(path);
    let cd = spec_components(dir);
    if cd.len() <= cp.len() && cp.take(cd.len() as int) == cd {
        Some(spec_remainder(path, cd.len() as int))
    } else {
        None
    }
}

fn is_skippable(p: &Vec<char>, start: usize, end: usize) -> (b: bool)
    requires
        start <= end <= p.len(),
    ensures
        b == skippable(p@, start as int, end as int),
{
    end == start || (end == start + 1 && p[start] == '.')
}

fn find_trim_front(p: &Vec<char>, q0: usize) -> (q: usize)
    requires
        q0 <= p.len(),
    ensures
        q == trim_front(p@, q0 as int, q0 as int),
        q0 <= q <= p.len(),
{
    let n = p.len();
    let mut start = q0;
    let mut i = q0;
    while i < n
        invariant
            n == p@.len(),
            q0 <= start <= i <= n,
            trim_front(p@, start as int, i as int) == trim_front(p@, q0 as int, q0 as int),
        decreases n - i,
    {
        if p[i] == '/' {
            if is_skippable(p, start, i) {
                start = i + 1;
                i = i + 1;
            } else {
                return start;
            }
        } else {
            i = i + 1;
        }
    }
    if is_skippable(p, start, n) {
        n
    } else {
        start
    }
}

fn find_trim_back(p: &Vec<char>, lo: usize) -> (r: usize)
    requires
        lo <= p.len(),
    ensures
        r == trim_back(p@, lo as int, p@.len() as int, p@.len() as int),
        lo <= r <= p.len(),
{
    let n = p.len();
    let mut r = n;
    let mut j = n;
    while j > lo
        invariant
            n == p@.len(),
            lo <= j <= r <= n,
            trim_back(p@, lo as int, r as int, j as int) == trim_back(p@, lo as int, n as int, n as int),
        decreases j,
    {
        if p[j - 1] == '/' {
            if is_skippable(p, j, r) {
                r = j - 1;
                j = j - 1;
            } else {
                return r;
            }
        } else {
            j = j - 1;
        }
    }
    if is_skippable(p, lo, r) {
        lo
    } else {
        r
    }
}

/// Whether two character vectors hold the same characters.
fn chars_equal(a: &Vec<char>, b: &Vec<char>) -> (eq: bool)
    ensures
        eq == (a@ == b@),
{
    if a.len() != b.len() {
        return false;
    }
    let mut i: usize = 0;
    while i < a.len()
        invariant
            a.len() == b.len(),
            i <= a.len(),
            forall|j: int| 0 <= j < i ==> a@[j] == b@[j],
        decreases a.len() - i,
    {
        if a[i] != b[i] {
            return false;
        }
        i = i + 1;
    }
    assert(a@ =~= b@);
    true
}

/// Whether two components are the same.
fn same_component(a: &Component<Vec<char>>, b: &Component<Vec<char>>) -> (eq: bool)
    ensures
        eq == (component_view(*a) == component_view(*b)),
{
    match (a, b) {
        (Component::RootDir, Component::RootDir) => true,
        (Component::CurDir, Component::CurDir) => true,
        (Component::ParentDir, Component::ParentDir) => true,
        (Component::Normal(x), Component::Normal(y)) => chars_equal(x, y),
        _ => false,
    }
}

/// The characters `lo..hi` of `p`, as a string.
fn substring(p: &Vec<char>, lo: usize, hi: usize) -> (s: String)
    requires
        lo <= hi <= p.len(),
    ensures
        s@ == p@.subrange(lo as int, hi as int),
{
    let mut s = String::new();
    let mut k: usize = lo;
    while k < hi
        invariant
            lo <= k <= hi <= p.len(),
            s@ == p@.subrange(lo as int, k as int),
        decreases hi - k,
    {
        assert(p@.subrange(lo as int, k + 1) =~= p@.subrange(lo as int, k as int).push(p@[k as int]));
        s.push(p[k]);
        k = k + 1;
    }
    s
}

/// Take the components of the directory `dir` off the front of `path`, as
/// `Path::strip_prefix` does.
pub fn strip_dir(path: &str, dir: &str) -> (rest: Option<String>)
    ensures
        match rest {
            Some(r) => spec_strip_dir(path@, dir@) == Some(r@),
            None => spec_strip_dir(path@, dir@) is None,
        },
{
    let p = chars_of(path);
    let d = chars_of(dir);
    let ps = components(path);
    let ds = components(dir);
    let ghost cp = spec_components(path@);
    let ghost cd = spec_components(dir@);
    assert(cp.len() == ps@.len() && cd.len() == ds@.len());
    if ds.len() > ps.len() {
        return None;
    }
    let mut k: usize = 0;
    while k < ds.len()
        invariant
            ds.len() <= ps.len(),
            k <= ds.len(),
            cp == spec_components(path@),
            cd == spec_components(dir@),
            span_components(ps@) == cp,
            span_components(ds@) == cd,
            forall|j: int| 0 <= j < k ==> cp[j] == cd[j],
        decreases ds.len() - k,
    {
        assert(cp[k as int] == component_view(ps@[k as int].component));
        assert(cd[k as int] == component_view(ds@[k as int].component));
        if !same_component(&ps[k].component, &ds[k].component) {
            assert(cp.take(cd.len() as int)[k as int] != cd[k as int]);
            return None;
        }
        k = k + 1;
    }
    assert(cp.take(cd.len() as int) =~= cd);
    let n = p.len();
    if ds.len() == 0 {
        let lo: usize = if n > 0 && p[0] == '/' {
            1
        } else if n > 0 && p[0] == '.' && (n == 1 || p[1] == '/') {
            1
        } else {
            0
        };
        let r = find_trim_back(&p, lo);
        assert(path@.take(r as int) =~= path@.subrange(0, r as int));
        return Some(substring(&p, 0, r));
    }
    let q0 = ps[ds.len() - 1].end;
    assert(span_views(ps@)[ds.len() - 1] == parsed_components(path@)[ds.len() - 1]);
    let q = find_trim_front(&p, q0);
    let r = find_trim_back(&p, q);
    Some(substring(&p, q, r))
}

/// The index of the last `/` in `s` before position `j`, or -1.
pub open spec fn last_sep(s: Seq<char>, j: int) -> int
    decreases j,
{
    if j <= 0 {
        -1
    } else if s[j - 1] == '/' {
        j - 1
    } else {
        last_sep(s, j - 1)
    }
}

/// The last piece of a path: the text after its last `/`.
pub open spec fn last_piece(s: Seq<char>) -> Seq<char> {
    s.skip(last_sep(s, s.len() as int) + 1)
}

/// The index of the last `.` in `name` before position `j`, or -1.
pub open spec fn last_dot(name: Seq<char>, j: int) -> int
    decreases j,
{
    if j <= 0 {
        -1
    } else if name[j - 1] == '.' {
        j - 1
    } else {
        last_dot(name, j - 1)
    }
}

/// The length of the file stem of `name`, as `Path::file_stem` has it: the
/// name up to its last `.`, or the whole name when it has no `.` or its only
/// `.` at the front.
pub open spec fn stem_len(name: Seq<char>) -> int {
    let d = last_dot(name, name.len() as int);
    if d <= 0 {
        name.len() as int
    } else {
        d
    }
}

/// `path` with its extension set to `ext`, as `PathBuf::set_extension`
/// sets it: the path is cut right after the file stem of its last component
/// and `.` and `ext` are added; a path whose last component is not a normal
/// one is left as it is.
pub open spec fn spec_set_extension(path: Seq<char>, ext: char) -> Seq<char> {
    let parts = parsed_components(path);
    if parts.len() == 0 {
        path
    } else {
        let last = parts.last();
        match last.0 {
            Component::Normal(name) => path.take(last.1 + stem_len(name)).push('.').push(ext),
            _ => path,
        }
    }
}

/// Set the extension of `path` to `ext`, as `PathBuf::set_extension` does.
pub fn set_extension(path: &str, ext: char) -> (out: String)
    ensures
        out@ == spec_set_extension(path@, ext),
{
    let p = chars_of(path);
    let spans = components(path);
    if spans.len() == 0 {
        return path.to_string();
    }
    let last = &spans[spans.len() - 1];
    assert(span_views(spans@)[spans@.len() - 1] == parsed_components(path@)[spans@.len() - 1]);
    assert(span_within(spans@[spans@.len() - 1], path@));
    match &last.component {
        Component::Normal(name) => {
            let mut j = name.len();
            while j > 0 && name[j - 1] != '.'
                invariant
                    j <= name.len(),
                    last_dot(name@, j as int) == last_dot(name@, name@.len() as int),
                decreases j,
            {
                j = j - 1;
            }
            let stem: usize = if j <= 1 {
                name.len()
            } else {
                j - 1
            };
            let mut out = substring(&p, 0, last.start + stem);
            assert(path@.take(last.start + stem) =~= path@.subrange(0, last.start + stem));
            out.push('.');
            out.push(ext);
            out
        },
        _ => path.to_string(),
    }
}

/// Reading a body that has no `/` from `i` on ends the current piece at the
/// end of the path.
proof fn lemma_scan_no_sep(
    s: Seq<char>,
    i: int,
    start: int,
    found: Seq<(Component<Seq<char>>, int, int)>,
)
    requires
        0 <= i <= s.len(),
        forall|m: int| i <= m < s.len() ==> s[m] != '/',
    ensures
        scan_components(s, i, start, found) == end_piece(s, start, s.len() as int, found),
    decreases s.len() - i,
{
    if i < s.len() {
        lemma_scan_no_sep(s, i + 1, start, found);
    }
}

/// `last_sep` finds the last `/` before `j`, and there is none after it.
pub proof fn lemma_last_sep_bounds(s: Seq<char>, j: int)
    requires
        0 <= j <= s.len(),
    ensures
        -1 <= last_sep(s, j) < j,
        last_sep(s, j) >= 0 ==> s[last_sep(s, j)] == '/',
        forall|m: int| last_sep(s, j) < m < j ==> s[m] != '/',
    decreases j,
{
    if j > 0 && s[j - 1] != '/' {
        lemma_last_sep_bounds(s, j - 1);
    }
}

/// Reading on towards the end, the last component read is the last piece.
proof fn lemma_scan_last(
    s: Seq<char>,
    i: int,
    start: int,
    found: Seq<(Component<Seq<char>>, int, int)>,
    p: int,
)
    requires
        -1 <= p < s.len(),
        0 <= i <= p + 1,
        p >= 0 ==> s[p] == '/',
        forall|m: int| p < m < s.len() ==> s[m] != '/',
        i == p + 1 ==> start == p + 1,
        body_component(s.subrange(p + 1, s.len() as int)) == Some(
            Component::Normal(s.subrange(p + 1, s.len() as int)),
        ),
    ensures
        scan_components(s, i, start, found).len() > 0,
        scan_components(s, i, start, found).last() == (
            Component::Normal(s.subrange(p + 1, s.len() as int)),
            p + 1,
            s.len() as int,
        ),
    decreases s.len() - i,
{
    if i == p + 1 {
        lemma_scan_no_sep(s, i, start, found);
    } else if s[i] == '/' {
        lemma_scan_last(s, i + 1, i + 1, end_piece(s, start, i, found), p);
    } else {
        lemma_scan_last(s, i + 1, start, found, p);
    }
}

/// When the last piece of a path is a normal name, it is the path's last
/// component, read from the text after the last `/`.
pub proof fn lemma_last_component(s: Seq<char>)
    requires
        body_component(last_piece(s)) == Some(Component::Normal(last_piece(s))),
    ensures
        parsed_components(s).len() > 0,
        parsed_components(s).last() == (
            Component::Normal(last_piece(s)),
            last_sep(s, s.len() as int) + 1,
            s.len() as int,
        ),
{
    let n = s.len() as int;
    lemma_last_sep_bounds(s, n);
    let p = last_sep(s, n);
    assert(last_piece(s) =~= s.subrange(p + 1, n));
    let b = body_start(s);
    if p == -1 {
        if has_cur_dir(s) {
            if s.len() == 1 {
                assert(last_piece(s) =~= seq!['.']);
            } else {
                assert(s[1] == '/');
            }
        }
        assert(b == 0);
    }
    lemma_scan_last(s, b, b, front_components(s), p);
}

/// Every component read lies within the path, and a normal one is named by
/// the text of its span.
pub open spec fn entries_within(s: Seq<char>, found: Seq<(Component<Seq<char>>, int, int)>) -> bool {
    forall|k: int|
        0 <= k < found.len() ==> {
            &&& 0 <= (#[trigger] found[k]).1 <= found[k].2 <= s.len()
            &&& match found[k].0 {
                Component::Normal(name) => name == s.subrange(found[k].1, found[k].2),
                _ => true,
            }
        }
}

proof fn lemma_scan_within(
    s: Seq<char>,
    i: int,
    start: int,
    found: Seq<(Component<Seq<char>>, int, int)>,
)
    requires
        0 <= start <= i <= s.len(),
        entries_within(s, found),
    ensures
        entries_within(s, scan_components(s, i, start, found)),
    decreases s.len() - i,
{
    let n = s.len() as int;
    if i >= n {
        let f = end_piece(s, start, n, found);
        assert forall|k: int| 0 <= k < f.len() implies {
            &&& 0 <= (#[trigger] f[k]).1 <= f[k].2 <= s.len()
            &&& match f[k].0 {
                Component::Normal(name) => name == s.subrange(f[k].1, f[k].2),
                _ => true,
            }
        } by {
            if k < found.len() {
                assert(f[k] == found[k]);
            }
        }
    } else if s[i] == '/' {
        let f = end_piece(s, start, i, found);
        assert forall|k: int| 0 <= k < f.len() implies {
            &&& 0 <= (#[trigger] f[k]).1 <= f[k].2 <= s.len()
            &&& match f[k].0 {
                Component::Normal(name) => name == s.subrange(f[k].1, f[k].2),
                _ => true,
            }
        } by {
            if k < found.len() {
                assert(f[k] == found[k]);
            }
        }
        lemma_scan_within(s, i + 1, i + 1, f);
    } else {
        lemma_scan_within(s, i + 1, start, found);
    }
}

/// The components of a path lie within it, and normal ones are named by
/// their text.
pub proof fn lemma_parsed_within(s: Seq<char>)
    ensures
        entries_within(s, parsed_components(s)),
{
    let b = body_start(s);
    lemma_scan_within(s, b, b, front_components(s));
}

/// Once a component starting at or after `a` has been read, the last one
/// read always starts at or after `a`.
proof fn lemma_scan_keeps_late_start(
    s: Seq<char>,
    i: int,
    start: int,
    found: Seq<(Component<Seq<char>>, int, int)>,
    a: int,
)
    requires
        found.len() > 0,
        found.last().1 >= a,
        start >= a,
        start <= i,
    ensures
        scan_components(s, i, start, found).len() > 0,
        scan_components(s, i, start, found).last().1 >= a,
    decreases s.len() - i,
{
    if i < 0 || i >= s.len() {
    } else if s[i] == '/' {
        lemma_scan_keeps_late_start(s, i + 1, i + 1, end_piece(s, start, i, found), a);
    } else {
        lemma_scan_keeps_late_start(s, i + 1, start, found, a);
    }
}

/// When a piece `a..e` after a `/` is a component, the last component read
/// starts at or after `a`.
proof fn lemma_scan_reaches_piece(
    s: Seq<char>,
    i: int,
    start: int,
    found: Seq<(Component<Seq<char>>, int, int)>,
    a: int,
    e: int,
)
    requires
        0 <= start <= i <= e,
        a < e <= s.len(),
        e == s.len() || s[e] == '/',
        forall|m: int| a <= m < e ==> s[m] != '/',
        body_component(s.subrange(a, e)) is Some,
        i < a ==> s[a - 1] == '/',
        i >= a ==> start == a,
    ensures
        scan_components(s, i, start, found).len() > 0,
        scan_components(s, i, start, found).last().1 >= a,
    decreases s.len() - i,
{
    if i == e {
        if e == s.len() {
        } else {
            lemma_scan_keeps_late_start(s, e + 1, e + 1, end_piece(s, a, e, found), a);
        }
    } else if s[i] == '/' {
        assert(i < a);
        lemma_scan_reaches_piece(s, i + 1, i + 1, end_piece(s, start, i, found), a, e);
    } else {
        lemma_scan_reaches_piece(s, i + 1, start, found, a, e);
    }
}

/// A path whose body holds a component at `a..e`, right after a `/`, has
/// its last component starting at or after `a`.
pub proof fn lemma_last_component_after(s: Seq<char>, a: int, e: int)
    requires
        body_start(s) < a < e <= s.len(),
        s[a - 1] == '/',
        e == s.len() || s[e] == '/',
        forall|m: int| a <= m < e ==> s[m] != '/',
        body_component(s.subrange(a, e)) is Some,
    ensures
        parsed_components(s).len() > 0,
        parsed_components(s).last().1 >= a,
{
    let b = body_start(s);
    lemma_scan_reaches_piece(s, b, b, front_components(s), a, e);
}

/// The file stem of a name is no longer than the name.
pub proof fn lemma_stem_len_bounds(name: Seq<char>)
    ensures
        0 <= stem_len(name) <= name.len(),
{
    lemma_last_dot_bounds(name, name.len() as int);
}

proof fn lemma_last_dot_bounds(name: Seq<char>, j: int)
    ensures
        -1 <= last_dot(name, j) < if j < 0 { 0 } else { j },
    decreases j,
{
    if j > 0 && name[j - 1] != '.' {
        lemma_last_dot_bounds(name, j - 1);
    }
}

/// Lexicographic order on sequences, from a strict order on their elements:
/// the first difference decides, and a proper prefix comes first.
pub open spec fn lex_lt<T>(a: Seq<T>, b: Seq<T>, lt: spec_fn(T, T) -> bool) -> bool
    decreases a.len(),
{
    if a.len() == 0 {
        b.len() > 0
    } else if b.len() == 0 {
        false
    } else if lt(a[0], b[0]) {
        true
    } else if a[0] == b[0] {
        lex_lt(a.drop_first(), b.drop_first(), lt)
    } else {
        false
    }
}

/// `lt` is a strict total order.
pub open spec fn strict_total<T>(lt: spec_fn(T, T) -> bool) -> bool {
    &&& forall|x: T| !(#[trigger] lt(x, x))
    &&& forall|x: T, y: T, z: T| #[trigger] lt(x, y) && #[trigger] lt(y, z) ==> lt(x, z)
    &&& forall|x: T, y: T| x != y ==> #[trigger] lt(x, y) || #[trigger] lt(y, x)
}

proof fn lemma_lex_irreflexive<T>(a: Seq<T>, lt: spec_fn(T, T) -> bool)
    requires
        strict_total(lt),
    ensures
        !lex_lt(a, a, lt),
    decreases a.len(),
{
    if a.len() > 0 {
        assert(!lt(a[0], a[0]));
        lemma_lex_irreflexive(a.drop_first(), lt);
    }
}

proof fn lemma_lex_transitive<T>(a: Seq<T>, b: Seq<T>, c: Seq<T>, lt: spec_fn(T, T) -> bool)
    requires
        strict_total(lt),
        lex_lt(a, b, lt),
        lex_lt(b, c, lt),
    ensures
        lex_lt(a, c, lt),
    decreases a.len(),
{
    if a.len() > 0 && b.len() > 0 && c.len() > 0 {
        if lt(a[0], b[0]) && lt(b[0], c[0]) {
            assert(lt(a[0], c[0]));
        } else if a[0] == b[0] && b[0] == c[0] {
            lemma_lex_transitive(a.drop_first(), b.drop_first(), c.drop_first(), lt);
        }
    }
}

proof fn lemma_lex_connected<T>(a: Seq<T>, b: Seq<T>, lt: spec_fn(T, T) -> bool)
    requires
        strict_total(lt),
        a != b,
    ensures
        lex_lt(a, b, lt) || lex_lt(b, a, lt),
    decreases a.len(),
{
    if a.len() > 0 && b.len() > 0 {
        if a[0] == b[0] {
            if a.drop_first() == b.drop_first() {
                assert(a =~= seq![a[0]] + a.drop_first());
                assert(b =~= seq![b[0]] + b.drop_first());
            }
            lemma_lex_connected(a.drop_first(), b.drop_first(), lt);
        } else {
            assert(lt(a[0], b[0]) || lt(b[0], a[0]));
        }
    } else if a.len() == 0 && b.len() == 0 {
        assert(a =~= b);
    }
}

/// Lexicographic order is a strict total order when the element order is.
pub proof fn lemma_lex_strict_total<T>(lt: spec_fn(T, T) -> bool)
    requires
        strict_total(lt),
    ensures
        strict_total(|a: Seq<T>, b: Seq<T>| lex_lt(a, b, lt)),
{
    let l = |a: Seq<T>, b: Seq<T>| lex_lt(a, b, lt);
    assert forall|x: Seq<T>| !(#[trigger] l(x, x)) by {
        lemma_lex_irreflexive(x, lt);
    }
    assert forall|x: Seq<T>, y: Seq<T>, z: Seq<T>| #[trigger] l(x, y) && #[trigger] l(y, z) implies l(
        x,
        z,
    ) by {
        lemma_lex_transitive(x, y, z, lt);
    }
    assert forall|x: Seq<T>, y: Seq<T>| x != y implies #[trigger] l(x, y) || #[trigger] l(y, x) by {
        lemma_lex_connected(x, y, lt);
    }
}

/// The order of characters, which is also that of their UTF-8 encodings.
pub open spec fn char_lt() -> spec_fn(char, char) -> bool {
    |x: char, y: char| x < y
}

/// The place of a component's kind in the order of `Component`'s variants.
pub open spec fn component_rank(c: Component<Seq<char>>) -> int {
    match c {
        Component::RootDir => 0,
        Component::CurDir => 1,
        Component::ParentDir => 2,
        Component::Normal(_) => 3,
    }
}

/// The order of path components, as `Component`'s `Ord` orders them: by
/// kind, and normal components by their names.
pub open spec fn component_lt() -> spec_fn(Component<Seq<char>>, Component<Seq<char>>) -> bool {
    |x: Component<Seq<char>>, y: Component<Seq<char>>|
        match (x, y) {
            (Component::Normal(a), Component::Normal(b)) => lex_lt(a, b, char_lt()),
            _ => component_rank(x) < component_rank(y),
        }
}

/// Paths are ordered by their components, as `Path`'s `Ord` orders them.
pub open spec fn path_lt(a: Seq<char>, b: Seq<char>) -> bool {
    lex_lt(spec_components(a), spec_components(b), component_lt())
}

/// `a` sorts no later than `b`.
pub open spec fn path_le(a: Seq<char>, b: Seq<char>) -> bool {
    !path_lt(b, a)
}

/// The order on components, and on component sequences, are strict total
/// orders.
proof fn lemma_component_order_strict_total()
    ensures
        strict_total(component_lt()),
        strict_total(|a: Seq<Component<Seq<char>>>, b: Seq<Component<Seq<char>>>| lex_lt(a, b, component_lt())),
{
    assert(strict_total(char_lt()));
    lemma_lex_strict_total(char_lt());
    let names = |a: Seq<char>, b: Seq<char>| lex_lt(a, b, char_lt());
    assert(strict_total(names));
    let l = component_lt();
    assert forall|x: Component<Seq<char>>| !(#[trigger] l(x, x)) by {
        if let Component::Normal(a) = x {
            assert(!names(a, a));
        }
    }
    assert forall|x: Component<Seq<char>>, y: Component<Seq<char>>, z: Component<Seq<char>>|
        #[trigger] l(x, y) && #[trigger] l(y, z) implies l(x, z) by {
        if let (Component::Normal(a), Component::Normal(b), Component::Normal(c)) = (x, y, z) {
            assert(names(a, b) && names(b, c));
            assert(names(a, c));
        }
    }
    assert forall|x: Component<Seq<char>>, y: Component<Seq<char>>| x != y implies #[trigger] l(x, y)
        || #[trigger] l(y, x) by {
        if let (Component::Normal(a), Component::Normal(b)) = (x, y) {
            assert(a != b);
            assert(names(a, b) || names(b, a));
        }
    }
    lemma_lex_strict_total(component_lt());
}

/// `path_le` is a total preorder: any two paths compare, and it is
/// transitive.
pub proof fn lemma_path_le_total_preorder()
    ensures
        forall|a: Seq<char>, b: Seq<char>| #[trigger] path_le(a, b) || #[trigger] path_le(b, a),
        forall|a: Seq<char>, b: Seq<char>, c: Seq<char>|
            #[trigger] path_le(a, b) && #[trigger] path_le(b, c) ==> path_le(a, c),
        forall|a: Seq<char>, b: Seq<char>| #[trigger] path_lt(a, b) ==> path_le(a, b),
{
    lemma_component_order_strict_total();
    let l = |a: Seq<Component<Seq<char>>>, b: Seq<Component<Seq<char>>>| lex_lt(a, b, component_lt());
    assert forall|a: Seq<char>, b: Seq<char>| #[trigger] path_le(a, b) || #[trigger] path_le(b, a) by {
        let ka = spec_components(a);
        let kb = spec_components(b);
        if l(ka, kb) && l(kb, ka) {
            assert(l(ka, ka));
        }
    }
    assert forall|a: Seq<char>, b: Seq<char>, c: Seq<char>|
        #[trigger] path_le(a, b) && #[trigger] path_le(b, c) implies path_le(a, c) by {
        let ka = spec_components(a);
        let kb = spec_components(b);
        let kc = spec_components(c);
        if l(kc, ka) {
            if kb == ka {
                assert(l(kc, kb));
            } else if l(ka, kb) {
                assert(l(kc, kb));
            } else {
                assert(l(kb, ka));
            }
        }
    }
    assert forall|a: Seq<char>, b: Seq<char>| #[trigger] path_lt(a, b) implies path_le(a, b) by {
        let ka = spec_components(a);
        let kb = spec_components(b);
        assert(l(ka, kb));
        if l(kb, ka) {
            assert(l(ka, ka));
        }
    }
}

/// Lexicographic comparison of two character sequences.
fn chars_lt(a: &Vec<char>, b: &Vec<char>) -> (lt: bool)
    ensures
        lt == lex_lt(a@, b@, char_lt()),
{
    let mut i: usize = 0;
    assert(a@.skip(0) =~= a@ && b@.skip(0) =~= b@);
    while i < a.len() && i < b.len()
        invariant
            i <= a.len(),
            i <= b.len(),
            lex_lt(a@, b@, char_lt()) == lex_lt(a@.skip(i as int), b@.skip(i as int), char_lt()),
        decreases a.len() - i,
    {
        let x = a[i];
        let y = b[i];
        assert(a@.skip(i as int)[0] == x && b@.skip(i as int)[0] == y);
        if x < y {
            return true;
        }
        if x != y {
            return false;
        }
        assert(a@.skip(i as int).drop_first() =~= a@.skip(i + 1));
        assert(b@.skip(i as int).drop_first() =~= b@.skip(i + 1));
        i = i + 1;
    }
    i < b.len()
}

/// Whether component `a` sorts before component `b`.
fn component_less(a: &Component<Vec<char>>, b: &Component<Vec<char>>) -> (lt: bool)
    ensures
        lt == component_lt()(component_view(*a), component_view(*b)),
{
    match (a, b) {
        (Component::Normal(x), Component::Normal(y)) => chars_lt(x, y),
        _ => {
            let ra: u8 = match a {
                Component::RootDir => 0,
                Component::CurDir => 1,
                Component::ParentDir => 2,
                Component::Normal(_) => 3,
            };
            let rb: u8 = match b {
                Component::RootDir => 0,
                Component::CurDir => 1,
                Component::ParentDir => 2,
                Component::Normal(_) => 3,
            };
            ra < rb
        },
    }
}

/// Lexicographic comparison of the components of two span lists.
fn components_lt(a: &Vec<Span>, b: &Vec<Span>) -> (lt: bool)
    ensures
        lt == lex_lt(span_components(a@), span_components(b@), component_lt()),
{
    let ghost va = span_components(a@);
    let ghost vb = span_components(b@);
    let mut i: usize = 0;
    assert(va.skip(0) =~= va && vb.skip(0) =~= vb);
    while i < a.len() && i < b.len()
        invariant
            va == span_components(a@),
            vb == span_components(b@),
            i <= a.len(),
            i <= b.len(),
            lex_lt(va, vb, component_lt()) == lex_lt(va.skip(i as int), vb.skip(i as int), component_lt()),
        decreases a.len() - i,
    {
        assert(va.skip(i as int)[0] == component_view(a@[i as int].component));
        assert(vb.skip(i as int)[0] == component_view(b@[i as int].component));
        if component_less(&a[i].component, &b[i].component) {
            return true;
        }
        if component_less(&b[i].component, &a[i].component) {
            return false;
        }
        proof {
            lemma_component_order_strict_total();
            let x = component_view(a@[i as int].component);
            let y = component_view(b@[i as int].component);
            if x != y {
                assert(component_lt()(x, y) || component_lt()(y, x));
            }
        }
        assert(va.skip(i as int).drop_first() =~= va.skip(i + 1));
        assert(vb.skip(i as int).drop_first() =~= vb.skip(i + 1));
        i = i + 1;
    }
    i < b.len()
}

/// Every path in `s` sorts no later than the ones after it.
pub open spec fn sorted_paths(s: Seq<String>) -> bool {
    forall|i: int, j: int| 0 <= i < j < s.len() ==> path_le(#[trigger] s[i]@, #[trigger] s[j]@)
}

/// Sort paths by their components, as `sort` on `PathBuf`s does.
pub fn sort_paths(paths: &Vec<String>) -> (sorted: Vec<String>)
    ensures
        sorted@.to_multiset() == paths@.to_multiset(),
        sorted_paths(sorted@),
{
    proof {
        lemma_path_le_total_preorder();
    }
    let mut out: Vec<String> = Vec::new();
    let mut keys: Vec<Vec<Span>> = Vec::new();
    let mut i: usize = 0;
    assert(paths@.take(0) =~= Seq::<String>::empty());
    while i < paths.len()
        invariant
            i <= paths.len(),
            out.len() == keys.len(),
            forall|j: int| 0 <= j < out.len() ==> #[trigger] span_components(keys@[j]@) == spec_components(out@[j]@),
            out@.to_multiset() == paths@.take(i as int).to_multiset(),
            sorted_paths(out@),
            forall|a: Seq<char>, b: Seq<char>| #[trigger] path_le(a, b) || #[trigger] path_le(b, a),
            forall|a: Seq<char>, b: Seq<char>, c: Seq<char>|
                #[trigger] path_le(a, b) && #[trigger] path_le(b, c) ==> path_le(a, c),
            forall|a: Seq<char>, b: Seq<char>| #[trigger] path_lt(a, b) ==> path_le(a, b),
        decreases paths.len() - i,
    {
        let x = paths[i].clone();
        let key = components(x.as_str());
        let mut pos: usize = 0;
        while pos < out.len() && !components_lt(&key, &keys[pos])
            invariant
                pos <= out.len(),
                out.len() == keys.len(),
                forall|j: int| 0 <= j < out.len() ==> #[trigger] span_components(keys@[j]@) == spec_components(out@[j]@),
                span_components(key@) == spec_components(x@),
                forall|j: int| 0 <= j < pos ==> path_le(#[trigger] out@[j]@, x@),
            decreases out.len() - pos,
        {
            assert(span_components(keys@[pos as int]@) == spec_components(out@[pos as int]@));
            pos = pos + 1;
        }
        proof {
            if pos < out.len() {
                assert(span_components(keys@[pos as int]@) == spec_components(out@[pos as int]@));
                assert(path_lt(x@, out@[pos as int]@));
            }
        }
        let ghost before = out@;
        let ghost before_keys = keys@;
        out.insert(pos, x);
        keys.insert(pos, key);
        proof {
            assert(paths@.take(i + 1) =~= paths@.take(i as int).push(paths@[i as int]));
            vstd::seq_lib::to_multiset_build(paths@.take(i as int), paths@[i as int]);
            vstd::seq_lib::to_multiset_insert(before, pos as int, paths@[i as int]);
            assert(forall|j: int| pos < j < out@.len() ==> out@[j] == before[j - 1]);
            assert forall|j: int, k: int| 0 <= j < k < out@.len() implies path_le(
                #[trigger] out@[j]@,
                #[trigger] out@[k]@,
            ) by {
                if k == pos {
                    assert(path_le(before[j]@, x@));
                } else if j == pos {
                    assert(path_le(x@, before[pos as int]@));
                    if k - 1 > pos {
                        assert(path_le(before[pos as int]@, before[k - 1]@));
                    }
                } else if j < pos && k > pos {
                    assert(path_le(before[j]@, before[k - 1]@));
                } else if j > pos {
                    assert(path_le(before[j - 1]@, before[k - 1]@));
                } else {
                    assert(path_le(before[j]@, before[k]@));
                }
            }
            assert forall|j: int| 0 <= j < out.len() implies #[trigger] span_components(keys@[j]@)
                == spec_components(out@[j]@) by {
                if j > pos {
                    assert(keys@[j] == before_keys[j - 1]);
                    assert(span_components(before_keys[j - 1]@) == spec_components(before[j - 1]@));
                } else if j < pos {
                    assert(keys@[j] == before_keys[j]);
                    assert(span_components(before_keys[j]@) == spec_components(before[j]@));
                }
            }
        }
        i = i + 1;
    }
    assert(paths@.take(paths.len() as int) =~= paths@);
    out
}

/// Joining a relative path extends the base: the base is a prefix of the
/// result.
pub proof fn lemma_join_extends(base: Seq<char>, rel: Seq<char>)
    requires
        !(rel.len() > 0 && rel[0] == '/'),
    ensures
        spec_join(base, rel).len() >= base.len() + rel.len(),
        forall|i: int| 0 <= i < base.len() ==> #[trigger] spec_join(base, rel)[i] == base[i],
        base.len() > 0 && base.last() != '/' ==> spec_join(base, rel)[base.len() as int] == '/'
            && spec_join(base, rel).len() == base.len() + 1 + rel.len() && forall|i: int|
            0 <= i < rel.len() ==> #[trigger] spec_join(base, rel)[base.len() + 1 + i] == rel[i],
{
}

/// No two paths in `s` have the same components.
pub open spec fn distinct_components(s: Seq<String>) -> bool {
    forall|i: int, j: int|
        0 <= i < s.len() && 0 <= j < s.len() && i != j ==> spec_components(#[trigger] s[i]@)
            != spec_components(#[trigger] s[j]@)
}

/// Sorting is determined by the paths alone: two sorted lists holding the
/// same paths, no two of which have the same components, are the same list.
pub proof fn lemma_sorted_paths_unique(a: Seq<String>, b: Seq<String>)
    requires
        a.to_multiset() == b.to_multiset(),
        sorted_paths(a),
        sorted_paths(b),
        distinct_components(a),
    ensures
        a == b,
    decreases a.len(),
{
    broadcast use vstd::seq_lib::group_to_multiset_ensures;

    lemma_component_order_strict_total();
    let l = |x: Seq<Component<Seq<char>>>, y: Seq<Component<Seq<char>>>| lex_lt(x, y, component_lt());
    assert(a.len() == b.len()) by {
        vstd::seq_lib::to_multiset_len(a);
        vstd::seq_lib::to_multiset_len(b);
    }
    if a.len() == 0 {
        assert(a =~= b);
    } else {
        assert(a.to_multiset().count(a[0]) > 0);
        assert(b.contains(a[0]));
        let k = choose|k: int| 0 <= k < b.len() && b[k] == a[0];
        assert(b.to_multiset().count(b[0]) > 0);
        assert(a.contains(b[0]));
        let m = choose|m: int| 0 <= m < a.len() && a[m] == b[0];
        let ka = spec_components(a[0]@);
        let kb = spec_components(b[0]@);
        if m > 0 {
            assert(path_le(a[0]@, a[m]@));
        }
        if k > 0 {
            assert(path_le(b[0]@, b[k]@));
        }
        assert(!l(kb, ka));
        assert(!l(ka, kb));
        assert(ka == kb);
        assert(m == 0);
        assert(a[0] == b[0]);
        vstd::seq_lib::to_multiset_remove(a, 0);
        vstd::seq_lib::to_multiset_remove(b, 0);
        assert(a.remove(0) =~= a.drop_first());
        assert(b.remove(0) =~= b.drop_first());
        let a1 = a.drop_first();
        let b1 = b.drop_first();
        assert(sorted_paths(a1)) by {
            assert forall|i: int, j: int| 0 <= i < j < a1.len() implies path_le(
                #[trigger] a1[i]@,
                #[trigger] a1[j]@,
            ) by {
                assert(path_le(a[i + 1]@, a[j + 1]@));
            }
        }
        assert(sorted_paths(b1)) by {
            assert forall|i: int, j: int| 0 <= i < j < b1.len() implies path_le(
                #[trigger] b1[i]@,
                #[trigger] b1[j]@,
            ) by {
                assert(path_le(b[i + 1]@, b[j + 1]@));
            }
        }
        assert(distinct_components(a1)) by {
            assert forall|i: int, j: int|
                0 <= i < a1.len() && 0 <= j < a1.len() && i != j implies spec_components(
                #[trigger] a1[i]@,
            ) != spec_components(#[trigger] a1[j]@) by {
                assert(a1[i] == a[i + 1] && a1[j] == a[j + 1]);
            }
        }
        lemma_sorted_paths_unique(a1, b1);
        assert(a =~= seq![a[0]] + a1);
        assert(b =~= seq![b[0]] + b1);
    }
}

/// Filtering a list and then counting is counting and then filtering.
pub proof fn lemma_filter_to_multiset<A>(s: Seq<A>, p: spec_fn(A) -> bool)
    ensures
        s.filter(p).to_multiset() =~= s.to_multiset().filter(p),
    decreases s.len(),
{
    broadcast use vstd::multiset::group_multiset_axioms;

    if s.len() == 0 {
        assert(s.filter(p) =~= Seq::<A>::empty()) by {
            s.lemma_filter_len(p);
        }
        assert(s.to_multiset() =~= vstd::multiset::Multiset::empty()) by {
            vstd::seq_lib::to_multiset_len(s);
        }
        assert forall|v: A| #[trigger] s.filter(p).to_multiset().count(v) == s.to_multiset().filter(
            p,
        ).count(v) by {
            vstd::seq_lib::to_multiset_len(s.filter(p));
        }
    } else {
        let init = s.drop_last();
        let x = s.last();
        lemma_filter_to_multiset(init, p);
        assert(init.push(x) =~= s);
        init.lemma_filter_push(x, p);
        vstd::seq_lib::to_multiset_build(init, x);
        if p(x) {
            vstd::seq_lib::to_multiset_build(init.filter(p), x);
        }
        assert forall|v: A| #[trigger] s.filter(p).to_multiset().count(v) == s.to_multiset().filter(
            p,
        ).count(v) by {
            assert(init.filter(p).to_multiset().count(v) == init.to_multiset().filter(p).count(v));
        }
    }
}

} // verus!

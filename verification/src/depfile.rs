//! The dependency files the compiler writes with `-MMD`: makefile rules whose
//! prerequisites are the headers compiling one source actually read.

use vstd::prelude::*;

use crate::text::{chars_of, is_whitespace, spec_is_whitespace, string_views};

verus! {

/// End the current token: it becomes a prerequisite if the target has
/// already been passed, and is dropped otherwise.
pub open spec fn flush_token(token: Seq<char>, deps: Seq<Seq<char>>, past_target: bool) -> Seq<
    Seq<char>,
> {
    if token.len() > 0 && past_target {
        deps.push(token)
    } else {
        deps
    }
}

/// Scan `text` from position `i` with the given lexer state (current token,
/// prerequisites found so far, whether the target's `:` was seen) and return
/// the prerequisites at the end of the text.
///
/// A `\` escapes the next character, except that `\` before a line break
/// continues the line and separates tokens like a space does. The first `:`
/// outside an escape ends the target; white space separates tokens.
pub open spec fn scan_deps(
    text: Seq<char>,
    i: int,
    token: Seq<char>,
    deps: Seq<Seq<char>>,
    past_target: bool,
) -> Seq<Seq<char>>
    decreases text.len() - i,
{
    if i < 0 || i >= text.len() {
        flush_token(token, deps, past_target)
    } else {
        let c = text[i];
        if c == '\\' {
            if i + 1 >= text.len() {
                flush_token(token, deps, past_target)
            } else if text[i + 1] == '\n' || text[i + 1] == '\r' {
                scan_deps(text, i + 2, Seq::empty(), flush_token(token, deps, past_target), past_target)
            } else {
                scan_deps(text, i + 2, token.push(text[i + 1]), deps, past_target)
            }
        } else if c == ':' && !past_target {
            scan_deps(text, i + 1, Seq::empty(), deps, true)
        } else if spec_is_whitespace(c) {
            scan_deps(text, i + 1, Seq::empty(), flush_token(token, deps, past_target), past_target)
        } else {
            scan_deps(text, i + 1, token.push(c), deps, past_target)
        }
    }
}

/// The prerequisites of a makefile-syntax dependency file.
pub open spec fn spec_make_deps(text: Seq<char>) -> Seq<Seq<char>> {
    scan_deps(text, 0, Seq::empty(), Seq::empty(), false)
}

/// Extract the prerequisites from a makefile-syntax dependency file, i.e. the
/// paths after the first `:`. Handles the two escapes GCC emits: `\` before a
/// newline to continue a line, and `\` before a space inside a path.
pub fn parse_make_deps(text: &str) -> (deps: Vec<String>)
    ensures
        string_views(deps@) == spec_make_deps(text@),
{
    let chars = chars_of(text);
    let n = chars.len();
    let mut deps: Vec<String> = Vec::new();
    let mut token = String::new();
    let mut past_target = false;
    let mut i: usize = 0;
    assert(string_views(deps@) =~= Seq::<Seq<char>>::empty());
    while i < n
        invariant
            n == chars@.len(),
            chars@ == text@,
            i <= n,
            scan_deps(text@, i as int, token@, string_views(deps@), past_target) == spec_make_deps(
                text@,
            ),
        decreases n - i,
    {
        let c = chars[i];
        if c == '\\' {
            if i + 1 >= n {
                i = i + 1;
            } else {
                let next = chars[i + 1];
                if next == '\n' || next == '\r' {
                    proof {
                        assert(string_views(deps@.push(token)) =~= string_views(deps@).push(token@));
                    }
                    if !token.as_str().is_empty() && past_target {
                        deps.push(token);
                    }
                    token = String::new();
                } else {
                    token.push(next);
                }
                i = i + 2;
            }
        } else if c == ':' && !past_target {
            token = String::new();
            past_target = true;
            i = i + 1;
        } else if is_whitespace(c) {
            proof {
                assert(string_views(deps@.push(token)) =~= string_views(deps@).push(token@));
            }
            if !token.as_str().is_empty() && past_target {
                deps.push(token);
            }
            token = String::new();
            i = i + 1;
        } else {
            token.push(c);
            i = i + 1;
        }
    }
    proof {
        assert(string_views(deps@.push(token)) =~= string_views(deps@).push(token@));
    }
    if !token.as_str().is_empty() && past_target {
        deps.push(token);
    }
    deps
}


/// Every prerequisite in the scan's result is non-empty, given that those
/// found so far are.
proof fn lemma_scan_nonempty(
    text: Seq<char>,
    i: int,
    token: Seq<char>,
    deps: Seq<Seq<char>>,
    past_target: bool,
)
    requires
        forall|k: int| 0 <= k < deps.len() ==> #[trigger] deps[k].len() > 0,
    ensures
        forall|k: int|
            0 <= k < scan_deps(text, i, token, deps, past_target).len() ==> #[trigger] scan_deps(
                text,
                i,
                token,
                deps,
                past_target,
            )[k].len() > 0,
    decreases text.len() - i,
{
    let f = flush_token(token, deps, past_target);
    assert forall|k: int| 0 <= k < f.len() implies #[trigger] f[k].len() > 0 by {
        if k < deps.len() {
            assert(f[k] == deps[k]);
        }
    }
    if i < 0 || i >= text.len() {
        assert(scan_deps(text, i, token, deps, past_target) == f);
    } else {
        let c = text[i];
        if c == '\\' {
            if i + 1 >= text.len() {
                assert(scan_deps(text, i, token, deps, past_target) == f);
            } else if text[i + 1] == '\n' || text[i + 1] == '\r' {
                lemma_scan_nonempty(text, i + 2, Seq::empty(), f, past_target);
                assert(scan_deps(text, i, token, deps, past_target) == scan_deps(text, i + 2, Seq::empty(), f, past_target));
            } else {
                lemma_scan_nonempty(text, i + 2, token.push(text[i + 1]), deps, past_target);
                assert(scan_deps(text, i, token, deps, past_target) == scan_deps(text, i + 2, token.push(text[i + 1]), deps, past_target));
            }
        } else if c == ':' && !past_target {
            lemma_scan_nonempty(text, i + 1, Seq::empty(), deps, true);
            assert(scan_deps(text, i, token, deps, past_target) == scan_deps(text, i + 1, Seq::empty(), deps, true));
        } else if spec_is_whitespace(c) {
            lemma_scan_nonempty(text, i + 1, Seq::empty(), flush_token(token, deps, past_target), past_target);
            assert(scan_deps(text, i, token, deps, past_target) == scan_deps(text, i + 1, Seq::empty(), f, past_target));
        } else {
            lemma_scan_nonempty(text, i + 1, token.push(c), deps, past_target);
            assert(scan_deps(text, i, token, deps, past_target) == scan_deps(text, i + 1, token.push(c), deps, past_target));
        }
    }
}

/// No prerequisite is ever an empty path.
pub proof fn law_prerequisites_are_nonempty(text: Seq<char>)
    ensures
        forall|k: int|
            0 <= k < spec_make_deps(text).len() ==> #[trigger] spec_make_deps(text)[k].len() > 0,
{
    lemma_scan_nonempty(text, 0, Seq::empty(), Seq::empty(), false);
}

/// Before the target's `:` has been seen, nothing is recorded.
proof fn lemma_scan_without_colon(text: Seq<char>, i: int, token: Seq<char>, deps: Seq<Seq<char>>)
    requires
        forall|j: int| 0 <= j < text.len() ==> text[j] != ':',
    ensures
        scan_deps(text, i, token, deps, false) == deps,
    decreases text.len() - i,
{
    if i < 0 || i >= text.len() {
    } else {
        let c = text[i];
        if c == '\\' {
            if i + 1 >= text.len() {
            } else if text[i + 1] == '\n' || text[i + 1] == '\r' {
                lemma_scan_without_colon(text, i + 2, Seq::empty(), deps);
            } else {
                lemma_scan_without_colon(text, i + 2, token.push(text[i + 1]), deps);
            }
        } else if spec_is_whitespace(c) {
            lemma_scan_without_colon(text, i + 1, Seq::empty(), deps);
        } else {
            lemma_scan_without_colon(text, i + 1, token.push(c), deps);
        }
    }
}

/// A dependency file without a `:` names no target, so it yields no
/// prerequisites.
pub proof fn law_no_target_no_prerequisites(text: Seq<char>)
    requires
        forall|j: int| 0 <= j < text.len() ==> text[j] != ':',
    ensures
        spec_make_deps(text) == Seq::<Seq<char>>::empty(),
{
    lemma_scan_without_colon(text, 0, Seq::empty(), Seq::empty());
}

/// Scanning a text from a position inside its second part is scanning that
/// part alone.
proof fn lemma_scan_shift(
    a: Seq<char>,
    b: Seq<char>,
    k: int,
    token: Seq<char>,
    deps: Seq<Seq<char>>,
    past_target: bool,
)
    requires
        0 <= k,
    ensures
        scan_deps(a + b, a.len() + k, token, deps, past_target) == scan_deps(
            b,
            k,
            token,
            deps,
            past_target,
        ),
    decreases b.len() - k,
{
    let s = a + b;
    let i = a.len() + k;
    if k >= b.len() {
    } else {
        assert(s[i] == b[k]);
        if k + 1 < b.len() {
            assert(s[i + 1] == b[k + 1]);
        }
        let c = b[k];
        if c == '\\' {
            if k + 1 >= b.len() {
            } else if b[k + 1] == '\n' || b[k + 1] == '\r' {
                lemma_scan_shift(a, b, k + 2, Seq::empty(), flush_token(token, deps, past_target), past_target);
            } else {
                lemma_scan_shift(a, b, k + 2, token.push(b[k + 1]), deps, past_target);
            }
        } else if c == ':' && !past_target {
            lemma_scan_shift(a, b, k + 1, Seq::empty(), deps, true);
        } else if spec_is_whitespace(c) {
            lemma_scan_shift(a, b, k + 1, Seq::empty(), flush_token(token, deps, past_target), past_target);
        } else {
            lemma_scan_shift(a, b, k + 1, token.push(c), deps, past_target);
        }
    }
}

/// The prerequisites listed by the text that follows a target's `:`.
pub open spec fn prerequisites_after_colon(rest: Seq<char>) -> Seq<Seq<char>> {
    scan_deps(rest, 0, Seq::empty(), Seq::empty(), true)
}

/// Scanning the target part (no `:`, no `\`) up to the first `:`.
proof fn lemma_scan_target(target: Seq<char>, rest: Seq<char>, i: int, token: Seq<char>)
    requires
        0 <= i <= target.len(),
        forall|j: int| 0 <= j < target.len() ==> target[j] != ':' && target[j] != '\\',
    ensures
        scan_deps(target + seq![':'] + rest, i, token, Seq::empty(), false)
            == prerequisites_after_colon(rest),
    decreases target.len() - i,
{
    let s = target + seq![':'] + rest;
    if i == target.len() {
        assert(s[i] == ':');
        assert(s == (target + seq![':']) + rest);
        lemma_scan_shift(target + seq![':'], rest, 0, Seq::empty(), Seq::empty(), true);
    } else {
        assert(s[i] == target[i]);
        let c = target[i];
        if spec_is_whitespace(c) {
            lemma_scan_target(target, rest, i + 1, Seq::empty());
        } else {
            lemma_scan_target(target, rest, i + 1, token.push(c));
        }
    }
}

/// Everything up to the first `:` is the target: the prerequisites are those
/// of the text after it.
pub proof fn law_prerequisites_follow_the_target(target: Seq<char>, rest: Seq<char>)
    requires
        forall|j: int| 0 <= j < target.len() ==> target[j] != ':' && target[j] != '\\',
    ensures
        spec_make_deps(target + seq![':'] + rest) == prerequisites_after_colon(rest),
{
    lemma_scan_target(target, rest, 0, Seq::empty());
}

/// `s` holds no white-space character.
pub open spec fn free_of_whitespace(s: Seq<char>) -> bool {
    forall|j: int| 0 <= j < s.len() ==> !spec_is_whitespace(#[trigger] s[j])
}

/// Without escapes, a prerequisite never contains white space.
proof fn lemma_scan_no_whitespace(
    text: Seq<char>,
    i: int,
    token: Seq<char>,
    deps: Seq<Seq<char>>,
    past_target: bool,
)
    requires
        forall|j: int| 0 <= j < text.len() ==> text[j] != '\\',
        free_of_whitespace(token),
        forall|k: int| 0 <= k < deps.len() ==> free_of_whitespace(#[trigger] deps[k]),
    ensures
        forall|k: int|
            0 <= k < scan_deps(text, i, token, deps, past_target).len() ==> free_of_whitespace(
                #[trigger] scan_deps(text, i, token, deps, past_target)[k],
            ),
    decreases text.len() - i,
{
    let f = flush_token(token, deps, past_target);
    assert forall|k: int| 0 <= k < f.len() implies free_of_whitespace(#[trigger] f[k]) by {
        if k < deps.len() {
            assert(f[k] == deps[k]);
        } else {
            assert(f[k] == token);
        }
    }
    if i < 0 || i >= text.len() {
        assert(scan_deps(text, i, token, deps, past_target) == f);
    } else {
        let c = text[i];
        assert(c != '\\');
        if c == ':' && !past_target {
            lemma_scan_no_whitespace(text, i + 1, Seq::empty(), deps, true);
            assert(scan_deps(text, i, token, deps, past_target) == scan_deps(text, i + 1, Seq::empty(), deps, true));
        } else if spec_is_whitespace(c) {
            lemma_scan_no_whitespace(text, i + 1, Seq::empty(), f, past_target);
            assert(scan_deps(text, i, token, deps, past_target) == scan_deps(text, i + 1, Seq::empty(), f, past_target));
        } else {
            let t = token.push(c);
            assert forall|j: int| 0 <= j < t.len() implies !spec_is_whitespace(#[trigger] t[j]) by {
                if j < token.len() {
                    assert(t[j] == token[j]);
                }
            }
            lemma_scan_no_whitespace(text, i + 1, t, deps, past_target);
            assert(scan_deps(text, i, token, deps, past_target) == scan_deps(text, i + 1, t, deps, past_target));
        }
    }
}

/// White space always separates prerequisites: without `\` escapes, no
/// prerequisite contains a white-space character.
pub proof fn law_unescaped_prerequisites_have_no_whitespace(text: Seq<char>)
    requires
        forall|j: int| 0 <= j < text.len() ==> text[j] != '\\',
    ensures
        forall|k: int|
            0 <= k < spec_make_deps(text).len() ==> free_of_whitespace(
                #[trigger] spec_make_deps(text)[k],
            ),
{
    lemma_scan_no_whitespace(text, 0, Seq::empty(), Seq::empty(), false);
}

/// Two texts that share a prefix without `\\` scan alike when their
/// remainders do, whatever the state the prefix leaves behind.
proof fn lemma_scan_common_prefix(
    a: Seq<char>,
    u: Seq<char>,
    v: Seq<char>,
    i: int,
    token: Seq<char>,
    deps: Seq<Seq<char>>,
    past_target: bool,
)
    requires
        0 <= i <= a.len(),
        forall|j: int| 0 <= j < a.len() ==> a[j] != '\\',
        forall|t: Seq<char>, d: Seq<Seq<char>>, p: bool|
            #[trigger] scan_deps(u, 0, t, d, p) == scan_deps(v, 0, t, d, p),
    ensures
        scan_deps(a + u, i, token, deps, past_target) == scan_deps(a + v, i, token, deps, past_target),
    decreases a.len() - i,
{
    if i == a.len() {
        lemma_scan_shift(a, u, 0, token, deps, past_target);
        lemma_scan_shift(a, v, 0, token, deps, past_target);
        assert(scan_deps(u, 0, token, deps, past_target) == scan_deps(v, 0, token, deps, past_target));
    } else {
        let c = a[i];
        assert((a + u)[i] == c && (a + v)[i] == c);
        if c == ':' && !past_target {
            lemma_scan_common_prefix(a, u, v, i + 1, Seq::empty(), deps, true);
        } else if spec_is_whitespace(c) {
            lemma_scan_common_prefix(a, u, v, i + 1, Seq::empty(), flush_token(token, deps, past_target), past_target);
        } else {
            lemma_scan_common_prefix(a, u, v, i + 1, token.push(c), deps, past_target);
        }
    }
}

/// A line continuation (`\\` before a line break) separates tokens exactly as
/// a space does.
pub proof fn law_continued_line_is_a_separator(a: Seq<char>, line_break: char, b: Seq<char>)
    requires
        forall|j: int| 0 <= j < a.len() ==> a[j] != '\\',
        line_break == '\n' || line_break == '\r',
    ensures
        spec_make_deps(a + seq!['\\', line_break] + b) == spec_make_deps(a + seq![' '] + b),
{
    let u = seq!['\\', line_break] + b;
    let v = seq![' '] + b;
    assert forall|t: Seq<char>, d: Seq<Seq<char>>, p: bool|
        #[trigger] scan_deps(u, 0, t, d, p) == scan_deps(v, 0, t, d, p) by {
        assert(u[0] == '\\' && u[1] == line_break);
        assert(v[0] == ' ');
        lemma_scan_shift(seq!['\\', line_break], b, 0, Seq::empty(), flush_token(t, d, p), p);
        lemma_scan_shift(seq![' '], b, 0, Seq::empty(), flush_token(t, d, p), p);
        assert(scan_deps(u, 0, t, d, p) == scan_deps(u, 2, Seq::empty(), flush_token(t, d, p), p));
        assert(scan_deps(v, 0, t, d, p) == scan_deps(v, 1, Seq::empty(), flush_token(t, d, p), p));
    }
    lemma_scan_common_prefix(a, u, v, 0, Seq::empty(), Seq::empty(), false);
    assert(a + seq!['\\', line_break] + b == a + u);
    assert(a + seq![' '] + b == a + v);
}

/// `text` has no two `\\` characters in a row.
pub open spec fn no_double_backslash(text: Seq<char>) -> bool {
    forall|j: int| 0 <= j < text.len() - 1 ==> !(#[trigger] text[j] == '\\' && text[j + 1] == '\\')
}

/// `text` with every line continuation (`\\` followed by `\n`) replaced by a
/// space, scanning from the left as `str::replace` does.
pub open spec fn continuations_as_spaces(text: Seq<char>) -> Seq<char>
    decreases text.len(),
{
    if text.len() == 0 {
        text
    } else if text.len() >= 2 && text[0] == '\\' && text[1] == '\n' {
        seq![' '] + continuations_as_spaces(text.skip(2))
    } else {
        seq![text[0]] + continuations_as_spaces(text.skip(1))
    }
}

/// Scanning from position `k` is scanning what follows it.
proof fn lemma_scan_from(
    text: Seq<char>,
    k: int,
    token: Seq<char>,
    deps: Seq<Seq<char>>,
    past_target: bool,
)
    requires
        0 <= k <= text.len(),
    ensures
        scan_deps(text, k, token, deps, past_target) == scan_deps(text.skip(k), 0, token, deps, past_target),
{
    lemma_scan_shift(text.take(k), text.skip(k), 0, token, deps, past_target);
    assert(text.take(k) + text.skip(k) =~= text);
}

/// Replacing the line continuations of a text by spaces does not change how
/// it scans, from any lexer state.
proof fn lemma_continuations_scan_alike(
    text: Seq<char>,
    token: Seq<char>,
    deps: Seq<Seq<char>>,
    past_target: bool,
)
    requires
        no_double_backslash(text),
    ensures
        scan_deps(text, 0, token, deps, past_target) == scan_deps(
            continuations_as_spaces(text),
            0,
            token,
            deps,
            past_target,
        ),
    decreases text.len(),
{
    let r = continuations_as_spaces(text);
    if text.len() == 0 {
    } else {
        let c = text[0];
        let t1 = text.skip(1);
        assert(no_double_backslash(t1)) by {
            assert forall|j: int| 0 <= j < t1.len() - 1 implies !(#[trigger] t1[j] == '\\' && t1[j + 1]
                == '\\') by {
                assert(t1[j] == text[j + 1] && t1[j + 1] == text[j + 2]);
            }
        }
        if c == '\\' && text.len() >= 2 {
            let t2 = text.skip(2);
            assert(no_double_backslash(t2)) by {
                assert forall|j: int| 0 <= j < t2.len() - 1 implies !(#[trigger] t2[j] == '\\' && t2[j
                    + 1] == '\\') by {
                    assert(t2[j] == text[j + 2] && t2[j + 1] == text[j + 3]);
                }
            }
            let n = text[1];
            assert(n != '\\') by {
                assert(!(text[0] == '\\' && text[1] == '\\'));
            }
            let rt2 = continuations_as_spaces(t2);
            lemma_scan_from(text, 2, Seq::empty(), flush_token(token, deps, past_target), past_target);
            lemma_scan_from(text, 2, token.push(n), deps, past_target);
            if n == '\n' {
                assert(r == seq![' '] + rt2);
                lemma_continuations_scan_alike(t2, Seq::empty(), flush_token(token, deps, past_target), past_target);
                assert(r[0] == ' ');
                lemma_scan_from(r, 1, Seq::empty(), flush_token(token, deps, past_target), past_target);
                assert(r.skip(1) =~= rt2);
            } else {
                assert(t1[0] == n);
                assert(continuations_as_spaces(t1) == seq![n] + continuations_as_spaces(t1.skip(1)));
                assert(t1.skip(1) =~= t2);
                assert(r == seq![c] + (seq![n] + rt2));
                assert(r[0] == '\\' && r[1] == n);
                assert(r.skip(2) =~= rt2);
                if n == '\r' {
                    lemma_continuations_scan_alike(t2, Seq::empty(), flush_token(token, deps, past_target), past_target);
                    lemma_scan_from(r, 2, Seq::empty(), flush_token(token, deps, past_target), past_target);
                } else {
                    lemma_continuations_scan_alike(t2, token.push(n), deps, past_target);
                    lemma_scan_from(r, 2, token.push(n), deps, past_target);
                }
            }
        } else {
            let rt1 = continuations_as_spaces(t1);
            assert(r == seq![c] + rt1);
            assert(r[0] == c);
            assert(r.skip(1) =~= rt1);
            if c == '\\' {
                assert(text.len() == 1);
                assert(t1.len() == 0);
                assert(r.len() == 1);
            } else if c == ':' && !past_target {
                lemma_continuations_scan_alike(t1, Seq::empty(), deps, true);
                lemma_scan_from(text, 1, Seq::empty(), deps, true);
                lemma_scan_from(r, 1, Seq::empty(), deps, true);
            } else if spec_is_whitespace(c) {
                lemma_continuations_scan_alike(t1, Seq::empty(), flush_token(token, deps, past_target), past_target);
                lemma_scan_from(text, 1, Seq::empty(), flush_token(token, deps, past_target), past_target);
                lemma_scan_from(r, 1, Seq::empty(), flush_token(token, deps, past_target), past_target);
            } else {
                lemma_continuations_scan_alike(t1, token.push(c), deps, past_target);
                lemma_scan_from(text, 1, token.push(c), deps, past_target);
                lemma_scan_from(r, 1, token.push(c), deps, past_target);
            }
        }
    }
}

/// A line continuation separates prerequisites exactly as a space does: in a
/// text with no two `\\` in a row, replacing every `\\` + `\n` by a space
/// leaves the prerequisites unchanged.
pub proof fn law_continuations_read_as_spaces(text: Seq<char>)
    requires
        no_double_backslash(text),
    ensures
        spec_make_deps(text) == spec_make_deps(continuations_as_spaces(text)),
{
    lemma_continuations_scan_alike(text, Seq::empty(), Seq::empty(), false);
}

/// The length of the run of non-white-space characters at the front of `s`.
pub open spec fn leading_word_len(s: Seq<char>) -> nat
    decreases s.len(),
{
    if s.len() == 0 || spec_is_whitespace(s[0]) {
        0
    } else {
        1 + leading_word_len(s.skip(1))
    }
}

/// The run at the front is never longer than the text.
pub proof fn lemma_leading_word_len_bound(s: Seq<char>)
    ensures
        leading_word_len(s) <= s.len(),
    decreases s.len(),
{
    if s.len() > 0 && !spec_is_whitespace(s[0]) {
        lemma_leading_word_len_bound(s.skip(1));
    }
}

/// The words of `s`: its maximal runs of non-white-space characters, in
/// order, as `split_whitespace` gives them.
pub open spec fn words(s: Seq<char>) -> Seq<Seq<char>>
    decreases s.len(),
{
    if s.len() == 0 {
        Seq::empty()
    } else if spec_is_whitespace(s[0]) {
        words(s.skip(1))
    } else {
        let n = leading_word_len(s);
        proof {
            lemma_leading_word_len_bound(s);
        }
        seq![s.take(n as int)] + words(s.skip(n as int))
    }
}

proof fn lemma_leading_word_of_token(token: Seq<char>, s: Seq<char>)
    requires
        free_of_whitespace(token),
    ensures
        leading_word_len(token + s) == token.len() + leading_word_len(s),
    decreases token.len(),
{
    if token.len() == 0 {
        assert(token + s =~= s);
    } else {
        let t = token + s;
        assert(t[0] == token[0]);
        assert(!spec_is_whitespace(token[0]));
        let rest = token.skip(1);
        assert(free_of_whitespace(rest)) by {
            assert forall|j: int| 0 <= j < rest.len() implies !spec_is_whitespace(#[trigger] rest[j]) by {
                assert(rest[j] == token[j + 1]);
            }
        }
        assert(t.skip(1) =~= rest + s);
        lemma_leading_word_of_token(rest, s);
    }
}

/// A non-empty word followed by the end of the text or white space is the
/// first word.
proof fn lemma_words_of_token(token: Seq<char>, s: Seq<char>)
    requires
        free_of_whitespace(token),
        token.len() > 0,
        s.len() == 0 || spec_is_whitespace(s[0]),
    ensures
        words(token + s) == seq![token] + words(s),
{
    let t = token + s;
    assert(t[0] == token[0]);
    assert(!spec_is_whitespace(token[0]));
    lemma_leading_word_of_token(token, s);
    assert(leading_word_len(s) == 0);
    assert(t.take(token.len() as int) =~= token);
    assert(t.skip(token.len() as int) =~= s);
}

/// Past the target, a text without `\\` yields, after what was found so far,
/// the words of the current token followed by the rest of the text.
proof fn lemma_scan_words(s: Seq<char>, token: Seq<char>, deps: Seq<Seq<char>>)
    requires
        forall|j: int| 0 <= j < s.len() ==> s[j] != '\\',
        free_of_whitespace(token),
    ensures
        scan_deps(s, 0, token, deps, true) == deps + words(token + s),
    decreases s.len(),
{
    if s.len() == 0 {
        assert(token + s =~= token);
        if token.len() == 0 {
            assert(deps + words(token + s) =~= deps);
        } else {
            lemma_words_of_token(token, s);
            assert(deps.push(token) =~= deps + (seq![token] + words(s)));
        }
    } else {
        let c = s[0];
        let s1 = s.skip(1);
        assert(c != '\\');
        assert(forall|j: int| 0 <= j < s1.len() ==> s1[j] == s[j + 1]);
        if spec_is_whitespace(c) {
            let f = flush_token(token, deps, true);
            lemma_scan_from(s, 1, Seq::empty(), f, true);
            lemma_scan_words(s1, Seq::empty(), f);
            assert(Seq::<char>::empty() + s1 =~= s1);
            assert(words(s) == words(s1));
            if token.len() == 0 {
                assert(token + s =~= s);
            } else {
                lemma_words_of_token(token, s);
                assert(deps.push(token) + words(s1) =~= deps + (seq![token] + words(s1)));
            }
        } else {
            let t = token.push(c);
            assert(free_of_whitespace(t)) by {
                assert forall|j: int| 0 <= j < t.len() implies !spec_is_whitespace(#[trigger] t[j]) by {
                    if j < token.len() {
                        assert(t[j] == token[j]);
                    }
                }
            }
            lemma_scan_from(s, 1, t, deps, true);
            lemma_scan_words(s1, t, deps);
            assert(t + s1 =~= token + s);
        }
    }
}

/// Everything up to the first `:` is the target, and when the text has no
/// `\\` escapes the prerequisites are the white-space-separated words after
/// that `:`.
pub proof fn law_prerequisites_are_the_words_after_the_colon(target: Seq<char>, rest: Seq<char>)
    requires
        forall|j: int| 0 <= j < target.len() ==> target[j] != ':' && target[j] != '\\',
        forall|j: int| 0 <= j < rest.len() ==> rest[j] != '\\',
    ensures
        spec_make_deps(target + seq![':'] + rest) == words(rest),
{
    law_prerequisites_follow_the_target(target, rest);
    lemma_scan_words(rest, Seq::empty(), Seq::empty());
    assert(Seq::<char>::empty() + rest =~= rest);
    assert(Seq::<Seq<char>>::empty() + words(rest) =~= words(rest));
}

} // verus!

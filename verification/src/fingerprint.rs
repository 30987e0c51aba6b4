//! Deciding what actually needs to be rebuilt.
//!
//! Two independent signals feed the decision:
//!
//! * per-object freshness, derived from the `.d` files the compiler writes,
//!   which is what makes editing a header trigger a rebuild of everything
//!   that includes it;
//! * a hash of the compiler flags for the whole profile, which catches the
//!   cases mtimes cannot see, such as editing `std` in the manifest.

use vstd::prelude::*;

use std::collections::hash_map::DefaultHasher;
use std::hash::Hasher;

use vstd::std_specs::hash::DefaultHasherAdditionalSpecFns;
use vstd::utf8::{decode_utf8, encode_utf8};

use crate::depfile::{parse_make_deps, spec_make_deps};
use crate::paths::{join, spec_join};
use crate::text::{spec_is_whitespace, spec_trim, spec_trim_end, spec_trim_start, string_views, trim};

verus! {

/// File under `target/<profile>/` holding the flag hash of the last build.
pub const FINGERPRINT_FILE: &'static str = ".cman-fingerprint";

/// The lowercase hexadecimal digit for `d < 16`.
pub open spec fn hex_char(d: nat) -> char {
    if d < 10 {
        ((d + 48) as u8) as char
    } else {
        ((d + 87) as u8) as char
    }
}

/// The last `n` hexadecimal digits of `v`, most significant first.
pub open spec fn hex_digits(v: nat, n: nat) -> Seq<char>
    decreases n,
{
    if n == 0 {
        Seq::empty()
    } else {
        hex_digits(v / 16, (n - 1) as nat).push(hex_char(v % 16))
    }
}

/// `h` as sixteen lowercase hexadecimal digits, as `format!("{:016x}", h)`
/// writes it.
pub open spec fn spec_hex16(h: u64) -> Seq<char> {
    hex_digits(h as nat, 16)
}

fn hex_digit(d: u64) -> (c: char)
    requires
        d < 16,
    ensures
        c == hex_char(d as nat),
{
    if d < 10 {
        ((d + 48) as u8) as char
    } else {
        ((d + 87) as u8) as char
    }
}

fn hex_digits_of(v: u64, n: usize) -> (s: String)
    ensures
        s@ == hex_digits(v as nat, n as nat),
    decreases n,
{
    if n == 0 {
        String::new()
    } else {
        let mut s = hex_digits_of(v / 16, n - 1);
        s.push(hex_digit(v % 16));
        s
    }
}

/// The recorded form of a flag hash: sixteen lowercase hexadecimal digits.
pub fn format_hash(h: u64) -> (s: String)
    ensures
        s@ == spec_hex16(h),
{
    hex_digits_of(h, 16)
}

/// `16` to the power `n`.
pub open spec fn pow16(n: nat) -> nat
    decreases n,
{
    if n == 0 {
        1
    } else {
        16 * pow16((n - 1) as nat)
    }
}

proof fn lemma_hex_char_injective(a: nat, b: nat)
    requires
        a < 16,
        b < 16,
        hex_char(a) == hex_char(b),
    ensures
        a == b,
{
}

proof fn lemma_hex_digits_injective(v: nat, w: nat, n: nat)
    requires
        v < pow16(n),
        w < pow16(n),
        hex_digits(v, n) == hex_digits(w, n),
    ensures
        v == w,
    decreases n,
{
    if n > 0 {
        let dv = hex_digits(v, n);
        let dw = hex_digits(w, n);
        assert(dv.last() == hex_char(v % 16));
        assert(dw.last() == hex_char(w % 16));
        lemma_hex_char_injective(v % 16, w % 16);
        assert(dv.drop_last() =~= hex_digits(v / 16, (n - 1) as nat));
        assert(dw.drop_last() =~= hex_digits(w / 16, (n - 1) as nat));
        lemma_hex_digits_injective(v / 16, w / 16, (n - 1) as nat);
    }
}

/// Different hashes are recorded differently: a change of the flag hash is
/// never hidden by the way it is written down.
pub proof fn law_recorded_hashes_are_distinct(h1: u64, h2: u64)
    requires
        h1 != h2,
    ensures
        spec_hex16(h1) != spec_hex16(h2),
{
    reveal_with_fuel(pow16, 17);
    assert(pow16(16) == 0x1_0000_0000_0000_0000);
    if spec_hex16(h1) == spec_hex16(h2) {
        lemma_hex_digits_injective(h1 as nat, h2 as nat, 16);
    }
}

proof fn lemma_hex_digits_not_whitespace(v: nat, n: nat)
    ensures
        hex_digits(v, n).len() == n,
        forall|i: int| 0 <= i < n ==> !spec_is_whitespace(#[trigger] hex_digits(v, n)[i]),
    decreases n,
{
    if n > 0 {
        lemma_hex_digits_not_whitespace(v / 16, (n - 1) as nat);
        let d = hex_digits(v, n);
        assert forall|i: int| 0 <= i < n implies !spec_is_whitespace(#[trigger] d[i]) by {
            if i < n - 1 {
                assert(d[i] == hex_digits(v / 16, (n - 1) as nat)[i]);
            } else {
                assert(d[i] == hex_char(v % 16));
            }
        }
    }
}

/// A recorded hash read back is no change: the fingerprint written after a
/// build matches the hash of the same flags on the next one.
pub proof fn law_recorded_hash_reads_back_unchanged(h: u64)
    ensures
        !spec_flags_changed(Some(spec_hex16(h)), spec_hex16(h)),
{
    let d = spec_hex16(h);
    lemma_hex_digits_not_whitespace(h as nat, 16);
    assert(!spec_is_whitespace(d[0]));
    assert(spec_trim_start(d) == d);
    assert(!spec_is_whitespace(d.last()));
    assert(spec_trim_end(d) == d);
}

/// The `width` bytes of `n`, least significant first.
pub open spec fn le_bytes(n: nat, width: nat) -> Seq<u8>
    decreases width,
{
    if width == 0 {
        Seq::empty()
    } else {
        seq![(n % 256) as u8] + le_bytes(n / 256, (width - 1) as nat)
    }
}

/// What the hasher is given for one piece of text: its UTF-8 length as
/// eight little-endian bytes, then its UTF-8 bytes. The length keeps the
/// pieces apart, so that `["ab"]` and `["a", "b"]` hash differently.
pub open spec fn framed(text: Seq<char>) -> Seq<Seq<u8>> {
    seq![le_bytes(encode_utf8(text).len(), 8), encode_utf8(text)]
}

/// What the hasher is given for a compiler command: the program, then each
/// flag in order, each framed by its length.
pub open spec fn command_chunks(program: Seq<char>, flags: Seq<Seq<char>>) -> Seq<Seq<u8>>
    decreases flags.len(),
{
    if flags.len() == 0 {
        framed(program)
    } else {
        command_chunks(program, flags.drop_last()) + framed(flags.last())
    }
}

/// The eight little-endian bytes of `n`.
fn length_bytes(n: u64) -> (bytes: Vec<u8>)
    ensures
        bytes@ == le_bytes(n as nat, 8),
{
    let mut out: Vec<u8> = Vec::new();
    let mut rest: u64 = n;
    let mut k: usize = 0;
    assert(out@ + le_bytes(rest as nat, 8) =~= le_bytes(n as nat, 8));
    while k < 8
        invariant
            k <= 8,
            out@ + le_bytes(rest as nat, (8 - k) as nat) == le_bytes(n as nat, 8),
        decreases 8 - k,
    {
        let ghost before = out@;
        let ghost tail = le_bytes((rest / 256) as nat, (8 - k - 1) as nat);
        assert(le_bytes(rest as nat, (8 - k) as nat) == seq![(rest % 256) as u8] + tail);
        out.push((rest % 256) as u8);
        assert(out@ + tail =~= before + (seq![(rest % 256) as u8] + tail));
        rest = rest / 256;
        k = k + 1;
    }
    assert(le_bytes(rest as nat, 0) =~= Seq::<u8>::empty());
    assert(out@ + Seq::<u8>::empty() =~= out@);
    out
}

/// Give the hasher one piece of text, framed by its length.
fn write_framed(hasher: &mut DefaultHasher, text: &str)
    ensures
        final(hasher)@ == old(hasher)@ + framed(text@),
{
    let bytes = text.as_bytes();
    let len = length_bytes(bytes.len() as u64);
    hasher.write(len.as_slice());
    hasher.write(bytes);
    assert(final(hasher)@ =~= old(hasher)@ + framed(text@)) by {
        assert(bytes@ == encode_utf8(text@));
    }
}

/// Hash of everything that would change the meaning of a compilation: the
/// compiler program and its flags, each framed by its length, fed in order
/// to `DefaultHasher` and recorded as sixteen hexadecimal digits.
pub fn flags_hash(program: &str, flags: &Vec<String>) -> (hash: String)
    ensures
        hash@ == spec_hex16(DefaultHasher::spec_finish(command_chunks(program@, string_views(flags@)))),
{
    let mut hasher = DefaultHasher::new();
    write_framed(&mut hasher, program);
    assert(hasher@ =~= command_chunks(program@, string_views(flags@).take(0)));
    let mut i: usize = 0;
    while i < flags.len()
        invariant
            i <= flags.len(),
            hasher@ == command_chunks(program@, string_views(flags@).take(i as int)),
        decreases flags.len() - i,
    {
        let ghost before = hasher@;
        write_framed(&mut hasher, flags[i].as_str());
        proof {
            let views = string_views(flags@);
            assert(views.take(i + 1).drop_last() =~= views.take(i as int));
            assert(views.take(i + 1).last() == flags@[i as int]@);
        }
        i = i + 1;
    }
    assert(string_views(flags@).take(flags.len() as int) =~= string_views(flags@));
    let h = hasher.finish();
    format_hash(h)
}

/// Where the framed pieces of a command stand among the chunks.
proof fn lemma_command_chunks(program: Seq<char>, flags: Seq<Seq<char>>)
    ensures
        command_chunks(program, flags).len() == 2 + 2 * flags.len(),
        command_chunks(program, flags)[1] == encode_utf8(program),
        forall|k: int| 0 <= k < flags.len() ==> #[trigger] command_chunks(program, flags)[2 * k + 3]
            == encode_utf8(flags[k]),
    decreases flags.len(),
{
    if flags.len() > 0 {
        let init = flags.drop_last();
        lemma_command_chunks(program, init);
        let c = command_chunks(program, flags);
        assert(c == command_chunks(program, init) + framed(flags.last()));
        assert forall|k: int| 0 <= k < flags.len() implies #[trigger] c[2 * k + 3] == encode_utf8(flags[k]) by {
            if k < init.len() {
                assert(c[2 * k + 3] == command_chunks(program, init)[2 * k + 3]);
                assert(init[k] == flags[k]);
            }
        }
    }
}

/// The hasher is given a different input for every different command: the
/// program and the flags can be read back from what it was given. So a
/// changed program or any changed, added, removed or reordered flag changes
/// what is hashed.
pub proof fn law_hashed_input_determines_the_command(
    program1: Seq<char>,
    flags1: Seq<Seq<char>>,
    program2: Seq<char>,
    flags2: Seq<Seq<char>>,
)
    requires
        command_chunks(program1, flags1) == command_chunks(program2, flags2),
    ensures
        program1 == program2,
        flags1 == flags2,
{
    broadcast use vstd::utf8::encode_utf8_decode_utf8;

    lemma_command_chunks(program1, flags1);
    lemma_command_chunks(program2, flags2);
    let c = command_chunks(program1, flags1);
    assert(decode_utf8(encode_utf8(program1)) == decode_utf8(encode_utf8(program2)));
    assert(flags1.len() == flags2.len());
    assert forall|k: int| 0 <= k < flags1.len() implies flags1[k] == flags2[k] by {
        assert(c[2 * k + 3] == encode_utf8(flags1[k]));
        assert(command_chunks(program2, flags2)[2 * k + 3] == encode_utf8(flags2[k]));
        assert(decode_utf8(encode_utf8(flags1[k])) == decode_utf8(encode_utf8(flags2[k])));
    }
    assert(flags1 =~= flags2);
}

pub fn fingerprint_path(profile_dir: &str) -> (path: String)
    ensures
        path@ == spec_join(profile_dir@, FINGERPRINT_FILE@),
{
    join(profile_dir, FINGERPRINT_FILE)
}

/// Whether the recorded flag hash differs from the current one.
pub open spec fn spec_flags_changed(recorded: Option<Seq<char>>, hash: Seq<char>) -> bool {
    match recorded {
        Some(text) => spec_trim(text) != hash,
        None => true,
    }
}

/// Whether the recorded flag hash (the contents of the fingerprint file, or
/// `None` when it is missing or unreadable) differs from the current one. A
/// missing or unreadable record counts as changed, which forces a full
/// rebuild; white space around the record is ignored.
pub fn flags_changed(recorded: Option<&str>, hash: &str) -> (changed: bool)
    ensures
        changed == spec_flags_changed(
            match recorded {
                Some(t) => Some(t@),
                None => None,
            },
            hash@,
        ),
{
    match recorded {
        Some(text) => {
            let t = trim(text);
            let h = hash.to_string();
            !(t == h)
        },
        None => true,
    }
}

/// A file's modification time, in nanoseconds after (negative: before) the
/// Unix epoch.
pub type Mtime = i128;

/// A missing file reads as newer than anything, so that a deleted header or
/// object triggers the rebuild that will report the real problem.
pub open spec fn spec_is_newer(time: Option<Mtime>, reference: Mtime) -> bool {
    match time {
        Some(t) => t > reference,
        None => true,
    }
}

/// Whether a file with modification time `time` (`None`: the file is
/// missing) is newer than `reference`.
pub fn is_newer_than(time: Option<Mtime>, reference: Mtime) -> (newer: bool)
    ensures
        newer == spec_is_newer(time, reference),
{
    match time {
        Some(t) => t > reference,
        None => true,
    }
}

/// What has been learnt so far about one compilation unit, filled in as the
/// rebuild check asks for it.
pub struct RebuildFacts {
    /// The compiler flags changed since the last build.
    pub forced: bool,
    /// The object's modification time once looked up (`Some(None)`: no object).
    pub object: Option<Option<Mtime>>,
    /// The source's modification time once looked up.
    pub source: Option<Option<Mtime>>,
    /// The dependency file's text once read (`Some(None)`: it could not be read).
    pub dep_file: Option<Option<String>>,
    /// Modification times of the first prerequisites, in the order listed.
    pub headers: Vec<Option<Mtime>>,
}

/// The next thing the rebuild check needs, or its verdict.
pub enum RebuildStep {
    Decided(bool),
    StatObject,
    StatSource,
    ReadDepFile,
    StatHeader(String),
}

/// The next thing the rebuild check needs, or its verdict, in terms of views.
pub enum RebuildNeed {
    Decided(bool),
    StatObject,
    StatSource,
    ReadDepFile,
    StatHeader(Seq<char>),
}

impl View for RebuildStep {
    type V = RebuildNeed;

    open spec fn view(&self) -> RebuildNeed {
        match self {
            RebuildStep::Decided(b) => RebuildNeed::Decided(*b),
            RebuildStep::StatObject => RebuildNeed::StatObject,
            RebuildStep::StatSource => RebuildNeed::StatSource,
            RebuildStep::ReadDepFile => RebuildNeed::ReadDepFile,
            RebuildStep::StatHeader(h) => RebuildNeed::StatHeader(h@),
        }
    }
}

/// The view of the dependency file's text.
pub open spec fn dep_view(dep_file: Option<Option<String>>) -> Option<Option<Seq<char>>> {
    match dep_file {
        Some(Some(text)) => Some(Some(text@)),
        Some(None) => Some(None),
        None => None,
    }
}

/// The rebuild check over what is known: the first condition that forces a
/// rebuild decides it; otherwise the next unknown fact is asked for, in the
/// order object, source, dependency file, then each prerequisite.
pub open spec fn spec_rebuild_step(
    forced: bool,
    object: Option<Option<Mtime>>,
    source: Option<Option<Mtime>>,
    dep_file: Option<Option<Seq<char>>>,
    headers: Seq<Option<Mtime>>,
) -> RebuildNeed {
    if forced {
        RebuildNeed::Decided(true)
    } else {
        match object {
            None => RebuildNeed::StatObject,
            Some(None) => RebuildNeed::Decided(true),
            Some(Some(obj_time)) => match source {
                None => RebuildNeed::StatSource,
                Some(src_time) => if spec_is_newer(src_time, obj_time) {
                    RebuildNeed::Decided(true)
                } else {
                    match dep_file {
                        None => RebuildNeed::ReadDepFile,
                        Some(None) => RebuildNeed::Decided(true),
                        Some(Some(text)) => {
                            let prereqs = spec_make_deps(text);
                            if exists|i: int|
                                0 <= i < headers.len() && spec_is_newer(
                                    #[trigger] headers[i],
                                    obj_time,
                                ) {
                                RebuildNeed::Decided(true)
                            } else if headers.len() >= prereqs.len() {
                                RebuildNeed::Decided(false)
                            } else {
                                RebuildNeed::StatHeader(prereqs[headers.len() as int])
                            }
                        },
                    }
                },
            },
        }
    }
}

/// Whether `src` has to be recompiled into its object, as far as `facts`
/// tell: either the verdict, or what to look up next.
///
/// `forced` short-circuits the check for the flag-change case, so that the
/// caller does not have to duplicate the logic per file. No dependency record
/// means we cannot know which headers matter, so the only safe answer is to
/// rebuild and produce one.
pub fn needs_rebuild(facts: &RebuildFacts) -> (step: RebuildStep)
    ensures
        step@ == spec_rebuild_step(
            facts.forced,
            facts.object,
            facts.source,
            dep_view(facts.dep_file),
            facts.headers@,
        ),
{
    if facts.forced {
        return RebuildStep::Decided(true);
    }
    let obj_time = match facts.object {
        None => return RebuildStep::StatObject,
        Some(None) => return RebuildStep::Decided(true),
        Some(Some(t)) => t,
    };
    match facts.source {
        None => return RebuildStep::StatSource,
        Some(src_time) => if is_newer_than(src_time, obj_time) {
            return RebuildStep::Decided(true);
        },
    }
    let text = match &facts.dep_file {
        None => return RebuildStep::ReadDepFile,
        Some(None) => return RebuildStep::Decided(true),
        Some(Some(text)) => text,
    };
    let mut i: usize = 0;
    while i < facts.headers.len()
        invariant
            i <= facts.headers.len(),
            !facts.forced,
            facts.object == Some(Some(obj_time)),
            facts.source matches Some(src_time) && !spec_is_newer(src_time, obj_time),
            dep_view(facts.dep_file) == Some(Some(text@)),
            forall|j: int| 0 <= j < i ==> !spec_is_newer(#[trigger] facts.headers@[j], obj_time),
        decreases facts.headers.len() - i,
    {
        if is_newer_than(facts.headers[i], obj_time) {
            assert(spec_is_newer(facts.headers@[i as int], obj_time));
            return RebuildStep::Decided(true);
        }
        i = i + 1;
    }
    let prereqs = parse_make_deps(text.as_str());
    assert(prereqs@.len() == spec_make_deps(text@).len());
    if facts.headers.len() >= prereqs.len() {
        RebuildStep::Decided(false)
    } else {
        let k = facts.headers.len();
        assert(string_views(prereqs@)[k as int] == prereqs@[k as int]@);
        RebuildStep::StatHeader(prereqs[k].clone())
    }
}

/// The rebuild rule: a source file is recompiled when the flags changed,
/// the object is missing, the source is newer than the object, the
/// dependency record is missing, or any header it lists is newer than the
/// object (a missing file counts as newer).
pub open spec fn rebuild_needed(
    forced: bool,
    object: Option<Mtime>,
    source: Option<Mtime>,
    dep_file: Option<Seq<char>>,
    header_time: spec_fn(Seq<char>) -> Option<Mtime>,
) -> bool {
    ||| forced
    ||| match object {
        None => true,
        Some(obj_time) => {
            ||| spec_is_newer(source, obj_time)
            ||| match dep_file {
                None => true,
                Some(text) => exists|i: int|
                    0 <= i < spec_make_deps(text).len() && spec_is_newer(
                        header_time(#[trigger] spec_make_deps(text)[i]),
                        obj_time,
                    ),
            }
        },
    }
}

/// `known` is either unknown yet or equal to `actual`.
pub open spec fn agrees<T>(known: Option<T>, actual: T) -> bool {
    known matches Some(k) ==> k == actual
}

/// Facts gathered from a file system in which the object, source and
/// dependency file are as given and each header `h` has time
/// `header_time(h)`: every fact known so far is the true one, and header
/// times were gathered in the order the prerequisites are listed.
pub open spec fn facts_agree(
    object_known: Option<Option<Mtime>>,
    source_known: Option<Option<Mtime>>,
    dep_known: Option<Option<Seq<char>>>,
    headers: Seq<Option<Mtime>>,
    object: Option<Mtime>,
    source: Option<Mtime>,
    dep_file: Option<Seq<char>>,
    header_time: spec_fn(Seq<char>) -> Option<Mtime>,
) -> bool {
    &&& agrees(object_known, object)
    &&& agrees(source_known, source)
    &&& agrees(dep_known, dep_file)
    &&& headers.len() > 0 ==> match dep_known {
        Some(Some(text)) => headers.len() <= spec_make_deps(text).len() && forall|i: int|
            0 <= i < headers.len() ==> #[trigger] headers[i] == header_time(spec_make_deps(text)[i]),
        _ => false,
    }
}

/// The rebuild check is sound and complete: whenever it reaches a verdict
/// from facts that agree with the file system, the verdict is the rebuild
/// rule applied to that file system, whatever the facts not yet gathered.
pub proof fn law_rebuild_verdict_follows_the_rule(
    forced: bool,
    object_known: Option<Option<Mtime>>,
    source_known: Option<Option<Mtime>>,
    dep_known: Option<Option<Seq<char>>>,
    headers: Seq<Option<Mtime>>,
    object: Option<Mtime>,
    source: Option<Mtime>,
    dep_file: Option<Seq<char>>,
    header_time: spec_fn(Seq<char>) -> Option<Mtime>,
    verdict: bool,
)
    requires
        facts_agree(
            object_known,
            source_known,
            dep_known,
            headers,
            object,
            source,
            dep_file,
            header_time,
        ),
        spec_rebuild_step(forced, object_known, source_known, dep_known, headers)
            == RebuildNeed::Decided(verdict),
    ensures
        verdict == rebuild_needed(forced, object, source, dep_file, header_time),
{
    if !forced {
        if let Some(Some(obj_time)) = object_known {
            if let Some(src_time) = source_known {
                if !spec_is_newer(src_time, obj_time) {
                    if let Some(Some(text)) = dep_known {
                        let prereqs = spec_make_deps(text);
                        if exists|i: int|
                            0 <= i < headers.len() && spec_is_newer(#[trigger] headers[i], obj_time) {
                            let i = choose|i: int|
                                0 <= i < headers.len() && spec_is_newer(
                                    #[trigger] headers[i],
                                    obj_time,
                                );
                            assert(headers[i] == header_time(prereqs[i]));
                        } else {
                            assert(headers.len() == prereqs.len());
                            assert forall|i: int| 0 <= i < prereqs.len() implies !spec_is_newer(
                                header_time(#[trigger] prereqs[i]),
                                obj_time,
                            ) by {
                                assert(headers[i] == header_time(prereqs[i]));
                            }
                        }
                    }
                }
            }
        }
    }
}

/// Drive the rebuild check for at most `fuel` steps against a file system in
/// which the object, source and dependency file are as given and each
/// header `h` has time `header_time(h)`: every question the check asks is
/// answered with the true fact, until it reaches a verdict.
pub open spec fn drive_rebuild(
    forced: bool,
    object: Option<Mtime>,
    source: Option<Mtime>,
    dep_file: Option<Seq<char>>,
    header_time: spec_fn(Seq<char>) -> Option<Mtime>,
    object_known: Option<Option<Mtime>>,
    source_known: Option<Option<Mtime>>,
    dep_known: Option<Option<Seq<char>>>,
    headers: Seq<Option<Mtime>>,
    fuel: nat,
) -> Option<bool>
    decreases fuel,
{
    if fuel == 0 {
        None
    } else {
        match spec_rebuild_step(forced, object_known, source_known, dep_known, headers) {
            RebuildNeed::Decided(verdict) => Some(verdict),
            RebuildNeed::StatObject => drive_rebuild(
                forced,
                object,
                source,
                dep_file,
                header_time,
                Some(object),
                source_known,
                dep_known,
                headers,
                (fuel - 1) as nat,
            ),
            RebuildNeed::StatSource => drive_rebuild(
                forced,
                object,
                source,
                dep_file,
                header_time,
                object_known,
                Some(source),
                dep_known,
                headers,
                (fuel - 1) as nat,
            ),
            RebuildNeed::ReadDepFile => drive_rebuild(
                forced,
                object,
                source,
                dep_file,
                header_time,
                object_known,
                source_known,
                Some(dep_file),
                headers,
                (fuel - 1) as nat,
            ),
            RebuildNeed::StatHeader(h) => drive_rebuild(
                forced,
                object,
                source,
                dep_file,
                header_time,
                object_known,
                source_known,
                dep_known,
                headers.push(header_time(h)),
                (fuel - 1) as nat,
            ),
        }
    }
}

/// The number of prerequisites the dependency file lists.
pub open spec fn prerequisite_count(dep_file: Option<Seq<char>>) -> int {
    match dep_file {
        Some(text) => spec_make_deps(text).len() as int,
        None => 0,
    }
}

/// How many more steps the check may take from the facts gathered so far.
pub open spec fn steps_left(
    object_known: Option<Option<Mtime>>,
    source_known: Option<Option<Mtime>>,
    dep_known: Option<Option<Seq<char>>>,
    headers: Seq<Option<Mtime>>,
    dep_file: Option<Seq<char>>,
) -> int {
    1 + (if object_known is None { 1int } else { 0 }) + (if source_known is None { 1int } else { 0 })
        + (if dep_known is None { 1int } else { 0 }) + prerequisite_count(dep_file) - headers.len()
}

proof fn lemma_drive_rebuild(
    forced: bool,
    object: Option<Mtime>,
    source: Option<Mtime>,
    dep_file: Option<Seq<char>>,
    header_time: spec_fn(Seq<char>) -> Option<Mtime>,
    object_known: Option<Option<Mtime>>,
    source_known: Option<Option<Mtime>>,
    dep_known: Option<Option<Seq<char>>>,
    headers: Seq<Option<Mtime>>,
    fuel: nat,
)
    requires
        facts_agree(object_known, source_known, dep_known, headers, object, source, dep_file, header_time),
        fuel >= steps_left(object_known, source_known, dep_known, headers, dep_file),
    ensures
        drive_rebuild(
            forced,
            object,
            source,
            dep_file,
            header_time,
            object_known,
            source_known,
            dep_known,
            headers,
            fuel,
        ) == Some(rebuild_needed(forced, object, source, dep_file, header_time)),
    decreases fuel,
{
    let step = spec_rebuild_step(forced, object_known, source_known, dep_known, headers);
    if headers.len() > 0 {
        assert(headers.len() <= prerequisite_count(dep_file));
    }
    assert(fuel > 0);
    match step {
        RebuildNeed::Decided(verdict) => {
            law_rebuild_verdict_follows_the_rule(
                forced,
                object_known,
                source_known,
                dep_known,
                headers,
                object,
                source,
                dep_file,
                header_time,
                verdict,
            );
        },
        RebuildNeed::StatObject => {
            assert(object_known is None);
            lemma_drive_rebuild(
                forced,
                object,
                source,
                dep_file,
                header_time,
                Some(object),
                source_known,
                dep_known,
                headers,
                (fuel - 1) as nat,
            );
        },
        RebuildNeed::StatSource => {
            assert(source_known is None);
            lemma_drive_rebuild(
                forced,
                object,
                source,
                dep_file,
                header_time,
                object_known,
                Some(source),
                dep_known,
                headers,
                (fuel - 1) as nat,
            );
        },
        RebuildNeed::ReadDepFile => {
            assert(dep_known is None);
            assert(headers.len() == 0);
            lemma_drive_rebuild(
                forced,
                object,
                source,
                dep_file,
                header_time,
                object_known,
                source_known,
                Some(dep_file),
                headers,
                (fuel - 1) as nat,
            );
        },
        RebuildNeed::StatHeader(h) => {
            let text = dep_known->0->0;
            assert(dep_known == Some(Some(text)));
            let prereqs = spec_make_deps(text);
            assert(headers.len() < prereqs.len());
            assert(h == prereqs[headers.len() as int]);
            let more = headers.push(header_time(h));
            assert forall|i: int| 0 <= i < more.len() implies #[trigger] more[i] == header_time(prereqs[i]) by {
                if i < headers.len() {
                    assert(more[i] == headers[i]);
                }
            }
            lemma_drive_rebuild(
                forced,
                object,
                source,
                dep_file,
                header_time,
                object_known,
                source_known,
                dep_known,
                more,
                (fuel - 1) as nat,
            );
        },
    }
}

/// Answering every question the rebuild check asks with the true facts of a
/// file system ends, within four steps plus one per listed prerequisite, in
/// the verdict of the rebuild rule for that file system. In particular each
/// header asked for is the next prerequisite of the dependency file not yet
/// looked up, so an edited header is always seen.
pub proof fn law_rebuild_check_reaches_the_rule(
    forced: bool,
    object: Option<Mtime>,
    source: Option<Mtime>,
    dep_file: Option<Seq<char>>,
    header_time: spec_fn(Seq<char>) -> Option<Mtime>,
    fuel: nat,
)
    requires
        fuel >= 4 + prerequisite_count(dep_file),
    ensures
        drive_rebuild(forced, object, source, dep_file, header_time, None, None, None, Seq::empty(), fuel)
            == Some(rebuild_needed(forced, object, source, dep_file, header_time)),
{
    lemma_drive_rebuild(forced, object, source, dep_file, header_time, None, None, None, Seq::empty(), fuel);
}

/// Whether the executable is out of date, as far as the times gathered tell:
/// `Some(verdict)`, or `None` when the time of the object at index
/// `object_times.len()` is needed next.
pub open spec fn spec_needs_relink(
    bin_time: Option<Mtime>,
    object_count: int,
    object_times: Seq<Option<Mtime>>,
) -> Option<bool> {
    match bin_time {
        None => Some(true),
        Some(t) => if exists|i: int|
            0 <= i < object_times.len() && spec_is_newer(#[trigger] object_times[i], t) {
            Some(true)
        } else if object_times.len() >= object_count {
            Some(false)
        } else {
            None
        },
    }
}

/// Whether the executable is out of date with respect to its objects: it is
/// missing, or an object is missing or newer. `object_times` are the times of
/// the first objects, in order; `None` asks for the next one.
pub fn needs_relink(bin_time: Option<Mtime>, object_count: usize, object_times: &Vec<Option<Mtime>>) -> (verdict: Option<bool>)
    ensures
        verdict == spec_needs_relink(bin_time, object_count as int, object_times@),
{
    let t = match bin_time {
        None => return Some(true),
        Some(t) => t,
    };
    let mut i: usize = 0;
    while i < object_times.len()
        invariant
            i <= object_times.len(),
            bin_time == Some(t),
            forall|j: int| 0 <= j < i ==> !spec_is_newer(#[trigger] object_times@[j], t),
        decreases object_times.len() - i,
    {
        if is_newer_than(object_times[i], t) {
            assert(spec_is_newer(object_times@[i as int], t));
            return Some(true);
        }
        i = i + 1;
    }
    if object_times.len() >= object_count {
        Some(false)
    } else {
        None
    }
}

/// Whether a build links again: it does when any unit was recompiled, and
/// otherwise when the executable is out of date (`relink_verdict`, the
/// answer of `needs_relink`). A relinking build is also the one that reports
/// that it is compiling.
pub fn must_relink(any_stale: bool, relink_verdict: bool) -> (r: bool)
    ensures
        r == (any_stale || relink_verdict),
{
    any_stale || relink_verdict
}

/// The relink rule: relink when the executable is missing, or any object is
/// missing or newer than it. A verdict reached from times gathered in order
/// from the file system is that rule's answer.
pub proof fn law_relink_verdict_follows_the_rule(
    bin_time: Option<Mtime>,
    object_times: Seq<Option<Mtime>>,
    actual_times: Seq<Option<Mtime>>,
    verdict: bool,
)
    requires
        object_times.len() <= actual_times.len(),
        forall|i: int| 0 <= i < object_times.len() ==> object_times[i] == actual_times[i],
        spec_needs_relink(bin_time, actual_times.len() as int, object_times) == Some(verdict),
    ensures
        verdict == match bin_time {
            None => true,
            Some(t) => exists|i: int|
                0 <= i < actual_times.len() && spec_is_newer(#[trigger] actual_times[i], t),
        },
{
    if let Some(t) = bin_time {
        if exists|i: int| 0 <= i < object_times.len() && spec_is_newer(#[trigger] object_times[i], t) {
            let i = choose|i: int| 0 <= i < object_times.len() && spec_is_newer(#[trigger] object_times[i], t);
            assert(spec_is_newer(actual_times[i], t));
        } else {
            assert(object_times.len() == actual_times.len());
            assert forall|i: int| 0 <= i < actual_times.len() implies !spec_is_newer(#[trigger] actual_times[i], t) by {
                assert(object_times[i] == actual_times[i]);
            }
        }
    }
}

/// Drive the relink check for at most `fuel` steps, answering each request
/// for the next object's time with its true time from `actual_times`.
pub open spec fn drive_relink(
    bin_time: Option<Mtime>,
    actual_times: Seq<Option<Mtime>>,
    gathered: Seq<Option<Mtime>>,
    fuel: nat,
) -> Option<bool>
    decreases fuel,
{
    if fuel == 0 {
        None
    } else {
        match spec_needs_relink(bin_time, actual_times.len() as int, gathered) {
            Some(verdict) => Some(verdict),
            None => drive_relink(
                bin_time,
                actual_times,
                gathered.push(actual_times[gathered.len() as int]),
                (fuel - 1) as nat,
            ),
        }
    }
}

proof fn lemma_drive_relink(
    bin_time: Option<Mtime>,
    actual_times: Seq<Option<Mtime>>,
    gathered: Seq<Option<Mtime>>,
    fuel: nat,
)
    requires
        gathered.len() <= actual_times.len(),
        forall|i: int| 0 <= i < gathered.len() ==> gathered[i] == actual_times[i],
        fuel >= actual_times.len() - gathered.len() + 1,
    ensures
        drive_relink(bin_time, actual_times, gathered, fuel) == Some(
            match bin_time {
                None => true,
                Some(t) => exists|i: int|
                    0 <= i < actual_times.len() && spec_is_newer(#[trigger] actual_times[i], t),
            },
        ),
    decreases fuel,
{
    match spec_needs_relink(bin_time, actual_times.len() as int, gathered) {
        Some(verdict) => {
            law_relink_verdict_follows_the_rule(bin_time, gathered, actual_times, verdict);
        },
        None => {
            let more = gathered.push(actual_times[gathered.len() as int]);
            assert forall|i: int| 0 <= i < more.len() implies more[i] == actual_times[i] by {
                if i < gathered.len() {
                    assert(more[i] == gathered[i]);
                }
            }
            lemma_drive_relink(bin_time, actual_times, more, (fuel - 1) as nat);
        },
    }
}

/// Answering each request of the relink check with the true time of the
/// next object ends, within one step per object plus one, in the verdict of
/// the relink rule: link again when the executable is absent, or when some
/// object is absent or newer than the executable.
pub proof fn law_relink_check_reaches_the_rule(bin_time: Option<Mtime>, actual_times: Seq<Option<Mtime>>, fuel: nat)
    requires
        fuel >= actual_times.len() + 1,
    ensures
        drive_relink(bin_time, actual_times, Seq::empty(), fuel) == Some(
            match bin_time {
                None => true,
                Some(t) => exists|i: int|
                    0 <= i < actual_times.len() && spec_is_newer(#[trigger] actual_times[i], t),
            },
        ),
{
    lemma_drive_relink(bin_time, actual_times, Seq::empty(), fuel);
}

} // verus!

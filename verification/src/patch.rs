use vstd::prelude::*;
use vstd::string::StringExecFns;
use crate::text::{is_prefix, find_from, matches_at};

verus! {

/// Index of the first newline in `s`, or `s.len()` when there is none.
pub open spec fn find_nl(s: Seq<char>) -> nat
    decreases s.len(),
{
    if s.len() == 0 {
        0
    } else if s[0] == '\n' {
        0
    } else {
        1 + find_nl(s.drop_first())
    }
}

pub proof fn lemma_find_nl(s: Seq<char>)
    ensures
        find_nl(s) <= s.len(),
        find_nl(s) < s.len() ==> s[find_nl(s) as int] == '\n',
        forall|j: int| 0 <= j < find_nl(s) ==> s[j] != '\n',
    decreases s.len(),
{
    if s.len() == 0 {
    } else if s[0] == '\n' {
    } else {
        lemma_find_nl(s.drop_first());
        assert forall|j: int| 0 <= j < find_nl(s) implies s[j] != '\n' by {
            if j > 0 {
                assert(s.drop_first()[j - 1] == s[j]);
            }
        }
    }
}

/// The first newline is determined by its defining properties.
pub proof fn lemma_find_nl_at(s: Seq<char>, k: int)
    requires
        0 <= k < s.len(),
        s[k] == '\n',
        forall|j: int| 0 <= j < k ==> s[j] != '\n',
    ensures
        find_nl(s) == k,
{
    lemma_find_nl(s);
    if find_nl(s) < k {
        assert(s[find_nl(s) as int] == '\n');
    }
}

/// When `s` holds no newline at all, `find_nl` runs off its end.
pub proof fn lemma_find_nl_none(s: Seq<char>)
    requires
        forall|j: int| 0 <= j < s.len() ==> s[j] != '\n',
    ensures
        find_nl(s) == s.len(),
{
    lemma_find_nl(s);
    if find_nl(s) < s.len() {
        assert(s[find_nl(s) as int] == '\n');
    }
}

/// The fixed head that identifies a profile's active-sector line.
pub open spec fn prf_key() -> Seq<char> {
    "Settings\tsector"@
}

/// The replacement profile line for a sector file `name`: the key, a tab, a
/// leading path-separator marker, the name, and a newline.
pub open spec fn profile_line(name: Seq<char>) -> Seq<char> {
    prf_key() + "\t\\"@ + name + "\n"@
}

/// Rewrites every newline-terminated line that starts with the profile sector
/// key to `repl`; a trailing fragment without a newline is kept as it is.
pub open spec fn patch_profile(s: Seq<char>, repl: Seq<char>) -> Seq<char>
    decreases s.len(),
{
    let k = find_nl(s) as int;
    if k >= s.len() {
        s
    } else {
        let line = s.subrange(0, k + 1);
        let rest = s.subrange(k + 1, s.len() as int);
        (if is_prefix(line, prf_key()) {
            repl
        } else {
            line
        }) + patch_profile(rest, repl)
    }
}

/// Whether line `[i, j]` of `text` (with `j` its terminating newline) starts
/// with `pat`.
fn line_has_prefix(text: &str, i: usize, j: usize, pat: &str) -> (r: bool)
    requires
        i <= j < text@.len() <= usize::MAX,
    ensures
        r == is_prefix(text@.subrange(i as int, j + 1), pat@),
{
    let m = pat.unicode_len();
    if m <= j - i + 1 {
        let r = matches_at(text, pat, i);
        proof {
            assert(text@.subrange(i as int, j + 1).subrange(0, pat@.len() as int) =~= text@
                .subrange(i as int, i + pat@.len()));
        }
        r
    } else {
        false
    }
}

/// Rewrites the sector-pointer line of one profile file's text: every
/// newline-terminated line starting with `Settings<TAB>sector` becomes the
/// line pointing at `sector_name`; everything else is kept as it is.
pub fn patch_profile_text(text: &str, sector_name: &str) -> (r: String)
    ensures
        r@ == patch_profile(text@, profile_line(sector_name@)),
{
    let mut repl = "Settings\tsector".to_owned();
    repl.append("\t\\");
    repl.append(sector_name);
    repl.append("\n");
    proof {
        assert(repl@ =~= profile_line(sector_name@));
    }
    let key = "Settings\tsector";
    let n = text.unicode_len();
    let mut out = String::new();
    let mut i: usize = 0;
    proof {
        assert(text@.subrange(0, n as int) =~= text@);
        assert(Seq::<char>::empty() + patch_profile(text@, repl@) =~= patch_profile(text@, repl@));
    }
    while i < n
        invariant
            n == text@.len() <= usize::MAX,
            i <= n,
            repl@ == profile_line(sector_name@),
            key@ == prf_key(),
            out@ + patch_profile(text@.subrange(i as int, n as int), repl@) == patch_profile(
                text@,
                repl@,
            ),
        decreases n - i,
    {
        let ghost rest = text@.subrange(i as int, n as int);
        let ghost whole = patch_profile(text@, repl@);
        match find_from(text, '\n', i) {
            None => {
                proof {
                    assert forall|j: int| 0 <= j < rest.len() implies rest[j] != '\n' by {
                        assert(rest[j] == text@[i + j]);
                    }
                    lemma_find_nl_none(rest);
                    assert(patch_profile(rest, repl@) == rest);
                }
                let tail = text.substring_char(i, n);
                out.append(tail);
                i = n;
                proof {
                    assert(text@.subrange(n as int, n as int) =~= Seq::<char>::empty());
                    assert(patch_profile(Seq::<char>::empty(), repl@) == Seq::<char>::empty());
                    assert(out@ + Seq::<char>::empty() =~= out@);
                    assert(out@ =~= whole);
                }
            },
            Some(j) => {
                proof {
                    assert(rest[j - i] == '\n');
                    assert forall|k: int| 0 <= k < j - i implies rest[k] != '\n' by {
                        assert(rest[k] == text@[i + k]);
                    }
                    lemma_find_nl_at(rest, j - i);
                    assert(rest.subrange(0, j - i + 1) =~= text@.subrange(i as int, j + 1));
                    assert(rest.subrange(j - i + 1, rest.len() as int) =~= text@.subrange(
                        j + 1,
                        n as int,
                    ));
                }
                if line_has_prefix(text, i, j, key) {
                    out.append(repl.as_str());
                } else {
                    let line_s = text.substring_char(i, j + 1);
                    out.append(line_s);
                }
                proof {
                    let restp = text@.subrange(j + 1, n as int);
                    let piece = if is_prefix(text@.subrange(i as int, j + 1), prf_key()) {
                        repl@
                    } else {
                        text@.subrange(i as int, j + 1)
                    };
                    assert(patch_profile(rest, repl@) == piece + patch_profile(restp, repl@));
                    assert(out@ + patch_profile(restp, repl@) =~= whole);
                }
                i = j + 1;
            },
        }
    }
    proof {
        assert(text@.subrange(n as int, n as int) =~= Seq::<char>::empty());
        assert(patch_profile(Seq::<char>::empty(), repl@) == Seq::<char>::empty());
        assert(out@ + Seq::<char>::empty() =~= out@);
    }
    out
}

/// The key that opens a session file's sector-file binding line.
pub open spec fn session_file_key() -> Seq<char> {
    "SECTORFILE:"@
}

/// The key that opens a session file's sector-title binding line.
pub open spec fn session_title_key() -> Seq<char> {
    "SECTORTITLE:"@
}

/// The two-line replacement holding both keys with empty values.
pub open spec fn cleared_binding() -> Seq<char> {
    "SECTORFILE:\nSECTORTITLE:\n"@
}

/// Replaces every two-line sequence of a `SECTORFILE:` line directly followed
/// by a `SECTORTITLE:` line (both newline-terminated) with the same two keys
/// holding empty values; everything else is kept as it is.
pub open spec fn clear_sessions(s: Seq<char>) -> Seq<char>
    decreases s.len(),
{
    let k = find_nl(s) as int;
    if k >= s.len() {
        s
    } else {
        let line = s.subrange(0, k + 1);
        let rest = s.subrange(k + 1, s.len() as int);
        let k2 = find_nl(rest) as int;
        if is_prefix(line, session_file_key()) && k2 < rest.len() && is_prefix(
            rest.subrange(0, k2 + 1),
            session_title_key(),
        ) {
            cleared_binding() + clear_sessions(rest.subrange(k2 + 1, rest.len() as int))
        } else {
            line + clear_sessions(rest)
        }
    }
}

/// Clears the sector bindings of one session file's text: every
/// `SECTORFILE:` line directly followed by a `SECTORTITLE:` line is replaced
/// by the pair with empty values; everything else is kept as it is.
pub fn clear_sessions_text(text: &str) -> (r: String)
    ensures
        r@ == clear_sessions(text@),
{
    let fkey = "SECTORFILE:";
    let tkey = "SECTORTITLE:";
    let n = text.unicode_len();
    let mut out = String::new();
    let mut i: usize = 0;
    proof {
        assert(text@.subrange(0, n as int) =~= text@);
        assert(Seq::<char>::empty() + clear_sessions(text@) =~= clear_sessions(text@));
    }
    while i < n
        invariant
            n == text@.len() <= usize::MAX,
            i <= n,
            fkey@ == session_file_key(),
            tkey@ == session_title_key(),
            out@ + clear_sessions(text@.subrange(i as int, n as int)) == clear_sessions(text@),
        decreases n - i,
    {
        let ghost rest = text@.subrange(i as int, n as int);
        let ghost whole = clear_sessions(text@);
        match find_from(text, '\n', i) {
            None => {
                proof {
                    assert forall|j: int| 0 <= j < rest.len() implies rest[j] != '\n' by {
                        assert(rest[j] == text@[i + j]);
                    }
                    lemma_find_nl_none(rest);
                    assert(clear_sessions(rest) == rest);
                }
                let tail = text.substring_char(i, n);
                out.append(tail);
                i = n;
                proof {
                    assert(text@.subrange(n as int, n as int) =~= Seq::<char>::empty());
                    assert(clear_sessions(Seq::<char>::empty()) == Seq::<char>::empty());
                    assert(out@ + Seq::<char>::empty() =~= out@);
                    assert(out@ =~= whole);
                }
            },
            Some(j) => {
                proof {
                    assert(rest[j - i] == '\n');
                    assert forall|k: int| 0 <= k < j - i implies rest[k] != '\n' by {
                        assert(rest[k] == text@[i + k]);
                    }
                    lemma_find_nl_at(rest, j - i);
                    assert(rest.subrange(0, j - i + 1) =~= text@.subrange(i as int, j + 1));
                    assert(rest.subrange(j - i + 1, rest.len() as int) =~= text@.subrange(
                        j + 1,
                        n as int,
                    ));
                }
                let ghost rest2 = text@.subrange(j + 1, n as int);
                let mut paired = false;
                let mut pair_end: usize = 0;
                if line_has_prefix(text, i, j, fkey) {
                    match find_from(text, '\n', j + 1) {
                        Some(j2) => {
                            proof {
                                assert(rest2[j2 - (j + 1)] == '\n');
                                assert forall|k: int| 0 <= k < j2 - (j + 1) implies rest2[k]
                                    != '\n' by {
                                    assert(rest2[k] == text@[j + 1 + k]);
                                }
                                lemma_find_nl_at(rest2, j2 - (j + 1));
                                assert(rest2.subrange(0, j2 - (j + 1) + 1) =~= text@.subrange(
                                    j + 1,
                                    j2 + 1,
                                ));
                                assert(rest2.subrange(j2 - (j + 1) + 1, rest2.len() as int) =~= text@
                                    .subrange(j2 + 1, n as int));
                            }
                            if line_has_prefix(text, j + 1, j2, tkey) {
                                paired = true;
                                pair_end = j2;
                            }
                        },
                        None => {
                            proof {
                                assert forall|k: int| 0 <= k < rest2.len() implies rest2[k]
                                    != '\n' by {
                                    assert(rest2[k] == text@[j + 1 + k]);
                                }
                                lemma_find_nl_none(rest2);
                            }
                        },
                    }
                }
                if paired {
                    out.append("SECTORFILE:\nSECTORTITLE:\n");
                    proof {
                        let restp = text@.subrange(pair_end + 1, n as int);
                        assert(clear_sessions(rest) == cleared_binding() + clear_sessions(restp));
                        assert(out@ + clear_sessions(restp) =~= whole);
                    }
                    i = pair_end + 1;
                } else {
                    let line_s = text.substring_char(i, j + 1);
                    out.append(line_s);
                    proof {
                        let line = text@.subrange(i as int, j + 1);
                        assert(clear_sessions(rest) == line + clear_sessions(rest2));
                        assert(out@ + clear_sessions(rest2) =~= whole);
                    }
                    i = j + 1;
                }
            },
        }
    }
    proof {
        assert(text@.subrange(n as int, n as int) =~= Seq::<char>::empty());
        assert(clear_sessions(Seq::<char>::empty()) == Seq::<char>::empty());
        assert(out@ + Seq::<char>::empty() =~= out@);
    }
    out
}

/// Whether a file name names a profile file that the pass rewrites: it starts
/// with the configured prefix and ends with the profile extension.
pub fn is_profile_file_name(name: &str, prefix: &str) -> (r: bool)
    ensures
        r == (crate::text::is_prefix(name@, prefix@) && crate::text::is_suffix(name@, ".prf"@)),
{
    crate::text::str_starts_with(name, prefix) && crate::text::str_ends_with(name, ".prf")
}

/// Whether a file name names a session file that the pass rewrites.
pub fn is_session_file_name(name: &str) -> (r: bool)
    ensures
        r == crate::text::is_suffix(name@, ".asr"@),
{
    crate::text::str_ends_with(name, ".asr")
}

/// No newline-terminated line of `s` starts with the profile sector key.
pub open spec fn profile_untouched(s: Seq<char>) -> bool
    decreases s.len(),
{
    let k = find_nl(s) as int;
    if k >= s.len() {
        true
    } else {
        !is_prefix(s.subrange(0, k + 1), prf_key()) && profile_untouched(
            s.subrange(k + 1, s.len() as int),
        )
    }
}

/// Law: a profile text with no matching line is unchanged by the rewrite.
pub proof fn lemma_patch_profile_no_match(s: Seq<char>, repl: Seq<char>)
    requires
        profile_untouched(s),
    ensures
        patch_profile(s, repl) == s,
    decreases s.len(),
{
    let k = find_nl(s) as int;
    lemma_find_nl(s);
    if k < s.len() {
        lemma_patch_profile_no_match(s.subrange(k + 1, s.len() as int), repl);
        assert(s.subrange(0, k + 1) + s.subrange(k + 1, s.len() as int) =~= s);
    }
}

/// No `SECTORFILE:` line of `s` is directly followed by a newline-terminated
/// `SECTORTITLE:` line.
pub open spec fn sessions_untouched(s: Seq<char>) -> bool
    decreases s.len(),
{
    let k = find_nl(s) as int;
    if k >= s.len() {
        true
    } else {
        let line = s.subrange(0, k + 1);
        let rest = s.subrange(k + 1, s.len() as int);
        let k2 = find_nl(rest) as int;
        !(is_prefix(line, session_file_key()) && k2 < rest.len() && is_prefix(
            rest.subrange(0, k2 + 1),
            session_title_key(),
        )) && sessions_untouched(rest)
    }
}

/// Law: a session text with no sector-binding pair is unchanged by the pass.
pub proof fn lemma_clear_sessions_no_match(s: Seq<char>)
    requires
        sessions_untouched(s),
    ensures
        clear_sessions(s) == s,
    decreases s.len(),
{
    let k = find_nl(s) as int;
    lemma_find_nl(s);
    if k < s.len() {
        lemma_clear_sessions_no_match(s.subrange(k + 1, s.len() as int));
        assert(s.subrange(0, k + 1) + s.subrange(k + 1, s.len() as int) =~= s);
    }
}

/// The character facts of the session keys and the cleared binding pair that
/// the idempotence proof leans on.
proof fn lemma_cleared_binding_chars()
    ensures
        session_file_key().len() == 11,
        session_title_key().len() == 12,
        cleared_binding().len() == 25,
        cleared_binding()[11] == '\n',
        cleared_binding()[24] == '\n',
        forall|j: int| 0 <= j < 11 ==> cleared_binding()[j] != '\n',
        forall|j: int| 11 < j < 24 ==> cleared_binding()[j] != '\n',
        is_prefix(cleared_binding().subrange(0, 12), session_file_key()),
        is_prefix(cleared_binding().subrange(12, 25), session_title_key()),
        !is_prefix(cleared_binding().subrange(0, 12), session_title_key()),
{
    reveal_strlit("SECTORFILE:");
    reveal_strlit("SECTORTITLE:");
    reveal_strlit("SECTORFILE:\nSECTORTITLE:\n");
    assert(cleared_binding().subrange(0, 12).subrange(0, 11) =~= session_file_key());
    assert(cleared_binding().subrange(12, 25).subrange(0, 12) =~= session_title_key());
    assert(cleared_binding().subrange(0, 12)[6] != session_title_key()[6]);
}

/// Peeling one newline-terminated line off the front of a session text, when
/// no cleared pair starts there.
proof fn lemma_clear_unfold_line(line: Seq<char>, x: Seq<char>)
    requires
        line.len() > 0,
        line[line.len() - 1] == '\n',
        forall|j: int| 0 <= j < line.len() - 1 ==> line[j] != '\n',
        !(is_prefix(line, session_file_key()) && find_nl(x) < x.len() && is_prefix(
            x.subrange(0, find_nl(x) as int + 1),
            session_title_key(),
        )),
    ensures
        clear_sessions(line + x) == line + clear_sessions(x),
{
    let s = line + x;
    lemma_find_nl_at(s, line.len() - 1);
    assert(s.subrange(0, line.len() as int) =~= line);
    assert(s.subrange(line.len() as int, s.len() as int) =~= x);
}

/// Peeling a sector-binding line pair off the front of a session text.
proof fn lemma_clear_unfold_pair(l1: Seq<char>, l2: Seq<char>, x: Seq<char>)
    requires
        l1.len() > 0,
        l1[l1.len() - 1] == '\n',
        forall|j: int| 0 <= j < l1.len() - 1 ==> l1[j] != '\n',
        l2.len() > 0,
        l2[l2.len() - 1] == '\n',
        forall|j: int| 0 <= j < l2.len() - 1 ==> l2[j] != '\n',
        is_prefix(l1, session_file_key()),
        is_prefix(l2, session_title_key()),
    ensures
        clear_sessions(l1 + l2 + x) == cleared_binding() + clear_sessions(x),
{
    let s = (l1 + l2) + x;
    assert forall|j: int| 0 <= j < l1.len() - 1 implies s[j] != '\n' by {
        assert(s[j] == l1[j]);
    }
    assert(s[l1.len() - 1] == l1[l1.len() - 1]);
    lemma_find_nl_at(s, l1.len() - 1);
    let rest = s.subrange(l1.len() as int, s.len() as int);
    assert(rest =~= l2 + x);
    assert forall|j: int| 0 <= j < l2.len() - 1 implies rest[j] != '\n' by {
        assert(rest[j] == l2[j]);
    }
    assert(rest[l2.len() - 1] == l2[l2.len() - 1]);
    lemma_find_nl_at(rest, l2.len() - 1);
    assert(s.subrange(0, l1.len() as int) =~= l1);
    assert(rest.subrange(0, l2.len() as int) =~= l2);
    assert(rest.subrange(l2.len() as int, rest.len() as int) =~= x);
}

/// Law: clearing a session text twice gives the same text as clearing once.
pub proof fn lemma_clear_sessions_idempotent(s: Seq<char>)
    ensures
        clear_sessions(clear_sessions(s)) == clear_sessions(s),
    decreases s.len(),
{
    lemma_cleared_binding_chars();
    let k = find_nl(s) as int;
    lemma_find_nl(s);
    if k < s.len() {
        let line = s.subrange(0, k + 1);
        let rest = s.subrange(k + 1, s.len() as int);
        let k2 = find_nl(rest) as int;
        lemma_find_nl(rest);
        let cl1 = cleared_binding().subrange(0, 12);
        let cl2 = cleared_binding().subrange(12, 25);
        if is_prefix(line, session_file_key()) && k2 < rest.len() && is_prefix(
            rest.subrange(0, k2 + 1),
            session_title_key(),
        ) {
            let rest2 = rest.subrange(k2 + 1, rest.len() as int);
            lemma_clear_sessions_idempotent(rest2);
            assert(clear_sessions(s) == cleared_binding() + clear_sessions(rest2));
            assert forall|j: int| 0 <= j < cl1.len() - 1 implies cl1[j] != '\n' by {
                assert(cl1[j] == cleared_binding()[j]);
            }
            assert forall|j: int| 0 <= j < cl2.len() - 1 implies cl2[j] != '\n' by {
                assert(cl2[j] == cleared_binding()[12 + j]);
            }
            lemma_clear_unfold_pair(cl1, cl2, clear_sessions(rest2));
            assert((cl1 + cl2) + clear_sessions(rest2) =~= cleared_binding() + clear_sessions(
                rest2,
            ));
        } else {
            lemma_clear_sessions_idempotent(rest);
            assert(clear_sessions(s) == line + clear_sessions(rest));
            let x = clear_sessions(rest);
            if !is_prefix(line, session_file_key()) {
                // The kept line cannot open a pair at all.
                lemma_clear_unfold_line(line, x);
            } else if k2 >= rest.len() {
                // The remainder has no complete line and is left as it is.
                assert(x == rest);
                lemma_clear_unfold_line(line, x);
            } else {
                // The pair test failed on the remainder's first line, so that
                // line is not a title line, and neither is whatever the
                // cleared remainder opens with.
                let line2 = rest.subrange(0, k2 + 1);
                assert(!is_prefix(line2, session_title_key()));
                let rest_after = rest.subrange(k2 + 1, rest.len() as int);
                let k3 = find_nl(rest_after) as int;
                if is_prefix(line2, session_file_key()) && k3 < rest_after.len() && is_prefix(
                    rest_after.subrange(0, k3 + 1),
                    session_title_key(),
                ) {
                    // The remainder itself opens a pair, so the cleared text
                    // opens with the cleared binding, whose first line is a
                    // sector-file line, not a title line.
                    assert(x == cleared_binding() + clear_sessions(
                        rest_after.subrange(k3 + 1, rest_after.len() as int),
                    ));
                    assert forall|j: int| 0 <= j < 11 implies x[j] != '\n' by {
                        assert(x[j] == cleared_binding()[j]);
                    }
                    assert(x[11] == cleared_binding()[11]);
                    lemma_find_nl_at(x, 11);
                    assert(x.subrange(0, 12) =~= cl1);
                    lemma_clear_unfold_line(line, x);
                } else {
                    // The remainder opens with its own kept line.
                    assert(x == line2 + clear_sessions(rest_after));
                    assert forall|j: int| 0 <= j < line2.len() - 1 implies x[j] != '\n' by {
                        assert(x[j] == line2[j]);
                        assert(line2[j] == rest[j]);
                    }
                    assert(x[line2.len() - 1] == line2[line2.len() - 1]);
                    lemma_find_nl_at(x, line2.len() - 1);
                    assert(x.subrange(0, line2.len() as int) =~= line2);
                    lemma_clear_unfold_line(line, x);
                }
            }
        }
    }
}

/// Peeling one newline-terminated line with no interior newline off the front
/// of the text being patched.
proof fn lemma_patch_profile_step(line: Seq<char>, x: Seq<char>, repl: Seq<char>)
    requires
        line.len() > 0,
        line[line.len() - 1] == '\n',
        forall|j: int| 0 <= j < line.len() - 1 ==> line[j] != '\n',
    ensures
        patch_profile(line + x, repl) == (if is_prefix(line, prf_key()) {
            repl
        } else {
            line
        }) + patch_profile(x, repl),
{
    let s = line + x;
    lemma_find_nl_at(s, line.len() - 1);
    assert(s.subrange(0, line.len() as int) =~= line);
    assert(s.subrange(line.len() as int, s.len() as int) =~= x);
}

/// Law: patching twice with one single-line replacement that itself starts
/// with the profile sector key gives the same text as patching once.
pub proof fn lemma_patch_profile_idempotent(s: Seq<char>, repl: Seq<char>)
    requires
        repl.len() > 0,
        repl[repl.len() - 1] == '\n',
        forall|j: int| 0 <= j < repl.len() - 1 ==> repl[j] != '\n',
        is_prefix(repl, prf_key()),
    ensures
        patch_profile(patch_profile(s, repl), repl) == patch_profile(s, repl),
    decreases s.len(),
{
    let k = find_nl(s) as int;
    lemma_find_nl(s);
    if k < s.len() {
        let line = s.subrange(0, k + 1);
        let rest = s.subrange(k + 1, s.len() as int);
        lemma_patch_profile_idempotent(rest, repl);
        if is_prefix(line, prf_key()) {
            lemma_patch_profile_step(repl, patch_profile(rest, repl), repl);
        } else {
            lemma_patch_profile_step(line, patch_profile(rest, repl), repl);
        }
    }
}

/// The hypotheses of the idempotence law hold of the replacement line built
/// from any sector-file name that holds no newline.
pub proof fn lemma_profile_line_wf(name: Seq<char>)
    requires
        forall|j: int| 0 <= j < name.len() ==> name[j] != '\n',
    ensures
        profile_line(name).len() > 0,
        profile_line(name)[profile_line(name).len() - 1] == '\n',
        forall|j: int| 0 <= j < profile_line(name).len() - 1 ==> profile_line(name)[j] != '\n',
        is_prefix(profile_line(name), prf_key()),
{
    reveal_strlit("Settings\tsector");
    reveal_strlit("\t\\");
    reveal_strlit("\n");
    let r = profile_line(name);
    assert(r.subrange(0, prf_key().len() as int) =~= prf_key());
    assert forall|j: int| 0 <= j < r.len() - 1 implies r[j] != '\n' by {
        if j < prf_key().len() {
            assert(r[j] == prf_key()[j]);
        } else if j < prf_key().len() + 2 {
            assert(r[j] == "\t\\"@[j - prf_key().len()]);
        } else {
            assert(r[j] == name[j - prf_key().len() - 2]);
        }
    }
}

/// Law: rewriting a profile text twice with the same sector-file name (one
/// holding no newline) yields the same text as rewriting it once.
pub proof fn lemma_patch_profile_text_idempotent(s: Seq<char>, name: Seq<char>)
    requires
        forall|j: int| 0 <= j < name.len() ==> name[j] != '\n',
    ensures
        patch_profile(patch_profile(s, profile_line(name)), profile_line(name)) == patch_profile(
            s,
            profile_line(name),
        ),
{
    lemma_profile_line_wf(name);
    lemma_patch_profile_idempotent(s, profile_line(name));
}

} // verus!

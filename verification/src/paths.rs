use vstd::prelude::*;
use vstd::string::StrSliceExecFns;
use crate::text::{find_from, str_eq};

verus! {

/// A path separator inside an archive entry name.
pub open spec fn is_sep(c: char) -> bool {
    c == '/' || c == '\\'
}

/// Index of the first separator in `s`, or `s.len()` when there is none.
pub open spec fn find_sep(s: Seq<char>) -> nat
    decreases s.len(),
{
    if s.len() == 0 {
        0
    } else if is_sep(s[0]) {
        0
    } else {
        1 + find_sep(s.drop_first())
    }
}

pub proof fn lemma_find_sep(s: Seq<char>)
    ensures
        find_sep(s) <= s.len(),
        find_sep(s) < s.len() ==> is_sep(s[find_sep(s) as int]),
        forall|j: int| 0 <= j < find_sep(s) ==> !is_sep(s[j]),
    decreases s.len(),
{
    if s.len() == 0 {
    } else if is_sep(s[0]) {
    } else {
        lemma_find_sep(s.drop_first());
        assert forall|j: int| 0 <= j < find_sep(s) implies !is_sep(s[j]) by {
            if j > 0 {
                assert(s.drop_first()[j - 1] == s[j]);
            }
        }
    }
}

/// The first separator is determined by its defining properties.
pub proof fn lemma_find_sep_at(s: Seq<char>, k: int)
    requires
        0 <= k < s.len(),
        is_sep(s[k]),
        forall|j: int| 0 <= j < k ==> !is_sep(s[j]),
    ensures
        find_sep(s) == k,
{
    lemma_find_sep(s);
    if find_sep(s) < k {
        assert(is_sep(s[find_sep(s) as int]));
    }
}

/// When `s` holds no separator, `find_sep` runs off its end.
pub proof fn lemma_find_sep_none(s: Seq<char>)
    requires
        forall|j: int| 0 <= j < s.len() ==> !is_sep(s[j]),
    ensures
        find_sep(s) == s.len(),
{
    lemma_find_sep(s);
    if find_sep(s) < s.len() {
        assert(is_sep(s[find_sep(s) as int]));
    }
}

/// The separator-delimited components of `s`, in order, separators dropped.
pub open spec fn raw_components(s: Seq<char>) -> Seq<Seq<char>>
    decreases s.len(),
{
    let k = find_sep(s) as int;
    if k >= s.len() {
        seq![s]
    } else {
        seq![s.subrange(0, k)] + raw_components(s.subrange(k + 1, s.len() as int))
    }
}

/// A component that names a real path step: not empty and not the current
/// directory.
pub open spec fn keeps(c: Seq<char>) -> bool {
    c.len() > 0 && c != "."@
}

/// The components that name real path steps, in order.
pub open spec fn kept_of(cs: Seq<Seq<char>>) -> Seq<Seq<char>>
    decreases cs.len(),
{
    if cs.len() == 0 {
        cs
    } else {
        let pre = kept_of(cs.drop_last());
        if keeps(cs.last()) {
            pre.push(cs.last())
        } else {
            pre
        }
    }
}

/// A component that may stand in a safe relative path: it does not climb to
/// the parent directory and holds no drive-letter separator.
pub open spec fn component_safe(c: Seq<char>) -> bool {
    c != ".."@ && forall|j: int| 0 <= j < c.len() ==> c[j] != ':'
}

/// An entry name is safe when it is not absolute and every component of it is
/// safe: joining its kept components under any base stays under that base.
pub open spec fn entry_name_safe(s: Seq<char>) -> bool {
    &&& s.len() > 0 ==> !is_sep(s[0])
    &&& forall|i: int| 0 <= i < raw_components(s).len() ==> component_safe(
        #[trigger] raw_components(s)[i],
    )
}

/// The sanitized relative path of an entry name: its kept components, when
/// the name is safe and leads somewhere; rejection otherwise.
pub open spec fn sanitize_spec(s: Seq<char>) -> Option<Seq<Seq<char>>> {
    if entry_name_safe(s) && kept_of(raw_components(s)).len() > 0 {
        Some(kept_of(raw_components(s)))
    } else {
        None
    }
}

/// Position of the first path separator in `s` at or after `from`.
fn find_sep_from(s: &str, from: usize) -> (r: Option<usize>)
    requires
        from <= s@.len(),
    ensures
        (match r {
            Some(j) => from <= j < s@.len() && is_sep(s@[j as int]) && forall|k: int|
                from <= k < j ==> !is_sep(s@[k]),
            None => forall|k: int| from <= k < s@.len() ==> !is_sep(s@[k]),
        }),
{
    let n = s.unicode_len();
    let mut i: usize = from;
    while i < n
        invariant
            n == s@.len(),
            from <= i <= n,
            forall|k: int| from <= k < i ==> !is_sep(s@[k]),
        decreases n - i,
    {
        let c = s.get_char(i);
        if c == '/' || c == '\\' {
            return Some(i);
        }
        i += 1;
    }
    None
}

/// Splits an archive entry name into a safe relative path: empty and
/// current-directory components are dropped; a name that is absolute, climbs
/// to a parent directory, holds a drive-letter separator, or leads nowhere is
/// rejected.
pub fn sanitize_entry_name(name: &str) -> (r: Option<Vec<String>>)
    ensures
        r.deep_view() == sanitize_spec(name@),
{
    let n = name.unicode_len();
    if n > 0 {
        let c0 = name.get_char(0);
        if c0 == '/' || c0 == '\\' {
            return None;
        }
    }
    let mut kept: Vec<String> = Vec::new();
    let ghost mut processed: Seq<Seq<char>> = Seq::empty();
    let mut i: usize = 0;
    proof {
        assert(Seq::<Seq<char>>::empty() + raw_components(name@.subrange(0, n as int)) =~= raw_components(
            name@.subrange(0, n as int),
        ));
        assert(name@.subrange(0, n as int) =~= name@);
        assert(kept.deep_view() =~= kept_of(Seq::<Seq<char>>::empty()));
    }
    loop
        invariant
            n == name@.len() <= usize::MAX,
            i <= n,
            n > 0 ==> !is_sep(name@[0]),
            processed + raw_components(name@.subrange(i as int, n as int)) == raw_components(
                name@,
            ),
            forall|t: int| 0 <= t < processed.len() ==> component_safe(#[trigger] processed[t]),
            kept.deep_view() == kept_of(processed),
        decreases n - i,
    {
        let ghost suffix = name@.subrange(i as int, n as int);
        let sep = find_sep_from(name, i);
        let to: usize = match sep {
            Some(j) => j,
            None => n,
        };
        proof {
            match sep {
                Some(j) => {
                    assert(suffix[j - i] == name@[j as int]);
                    assert forall|k: int| 0 <= k < j - i implies !is_sep(suffix[k]) by {
                        assert(suffix[k] == name@[i + k]);
                    }
                    lemma_find_sep_at(suffix, j - i);
                    assert(suffix.subrange(0, j - i) =~= name@.subrange(i as int, j as int));
                    assert(suffix.subrange(j - i + 1, suffix.len() as int) =~= name@.subrange(
                        j + 1,
                        n as int,
                    ));
                },
                None => {
                    assert forall|k: int| 0 <= k < suffix.len() implies !is_sep(suffix[k]) by {
                        assert(suffix[k] == name@[i + k]);
                    }
                    lemma_find_sep_none(suffix);
                    assert(suffix =~= name@.subrange(i as int, n as int));
                },
            }
        }
        let comp = name.substring_char(i, to);
        if find_from(comp, ':', 0).is_some() || str_eq(comp, "..") {
            proof {
                assert(raw_components(name@)[processed.len() as int] == comp@);
                assert(!component_safe(comp@));
                assert(!entry_name_safe(name@));
            }
            return None;
        }
        let ghost old_processed = processed;
        proof {
            processed = processed.push(comp@);
            assert(processed.drop_last() =~= old_processed);
        }
        if comp.unicode_len() > 0 && !str_eq(comp, ".") {
            kept.push(comp.to_owned());
            proof {
                assert(kept.deep_view() =~= kept_of(processed));
            }
        } else {
            proof {
                assert(!keeps(comp@));
                assert(kept.deep_view() =~= kept_of(processed));
            }
        }
        match sep {
            Some(j) => {
                proof {
                    assert(old_processed + (seq![comp@] + raw_components(
                        name@.subrange(j + 1, n as int),
                    )) =~= processed + raw_components(name@.subrange(j + 1, n as int)));
                }
                i = j + 1;
            },
            None => {
                proof {
                    assert(old_processed + seq![comp@] =~= processed);
                    assert(processed =~= raw_components(name@));
                    assert(entry_name_safe(name@));
                }
                if kept.len() > 0 {
                    proof {
                        assert(kept.deep_view().len() == kept.len());
                        assert(sanitize_spec(name@) == Some(kept.deep_view()));
                    }
                    return Some(kept);
                } else {
                    proof {
                        assert(kept_of(raw_components(name@)).len() == 0);
                    }
                    return None;
                }
            },
        }
    }
}

} // verus!

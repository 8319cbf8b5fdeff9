use vstd::prelude::*;
use crate::errors::UpdateError;
use crate::text::{is_suffix, str_ends_with};
use crate::paths::{sanitize_spec, sanitize_entry_name, component_safe, keeps};

verus! {

/// One archive entry: its stored name and its full decompressed contents.
pub struct ZipEntry {
    pub name: String,
    pub data: Vec<u8>,
}

impl View for ZipEntry {
    type V = (Seq<char>, Seq<u8>);

    open spec fn view(&self) -> (Seq<char>, Seq<u8>) {
        (self.name@, self.data@)
    }
}

impl DeepView for ZipEntry {
    type V = (Seq<char>, Seq<u8>);

    open spec fn deep_view(&self) -> (Seq<char>, Seq<u8>) {
        self@
    }
}

#[verifier::external_type_specification]
#[verifier::external_body]
#[verifier::reject_recursive_types(T)]
pub struct ExCursor<T>(std::io::Cursor<T>);

#[verifier::external_type_specification]
#[verifier::external_body]
#[verifier::reject_recursive_types(R)]
pub struct ExZipArchive<R>(zip::ZipArchive<R>);

/// What a readable ZIP container holds: each entry's name and decompressed
/// contents, in archive order. Decoding is a function of the bytes alone.
pub uninterp spec fn zip_entries_of(bytes: Seq<u8>) -> Seq<(Seq<char>, Seq<u8>)>;

/// The entries that an open archive hands out by index.
pub uninterp spec fn archive_entries(a: zip::ZipArchive<std::io::Cursor<Vec<u8>>>) -> Seq<
    (Seq<char>, Seq<u8>),
>;

/// Whether the bytes decode as a ZIP container all of whose entries can be
/// read without a password: a function of the bytes alone.
pub uninterp spec fn zip_readable(bytes: Seq<u8>) -> bool;

/// Whether entry `i` of the open archive can be read.
pub uninterp spec fn entry_readable(a: zip::ZipArchive<std::io::Cursor<Vec<u8>>>, i: int) -> bool;

/// Relies on zip's `ZipArchive::new` over an in-memory cursor: decodes the
/// archive's central directory, and succeeds on every readable container;
/// reading an entry may still fail later, so a readable container is an open
/// one whose every entry reads.
#[verifier::external_body]
fn open_archive(bytes: &Vec<u8>) -> (r: Result<
    zip::ZipArchive<std::io::Cursor<Vec<u8>>>,
    UpdateError,
>)
    ensures
        (match r {
            Ok(a) => archive_entries(a) == zip_entries_of(bytes@) && (zip_readable(bytes@)
                <==> (forall|i: int|
                0 <= i < zip_entries_of(bytes@).len() ==> entry_readable(a, i))),
            Err(e) => e == UpdateError::ExtractError,
        }),
        zip_readable(bytes@) ==> r is Ok,
{
    match zip::ZipArchive::new(std::io::Cursor::new(bytes.clone())) {
        Ok(a) => Ok(a),
        Err(_) => Err(UpdateError::ExtractError),
    }
}

/// Relies on zip's `ZipArchive::len`: the number of entries in the archive.
#[verifier::external_body]
fn archive_len(a: &zip::ZipArchive<std::io::Cursor<Vec<u8>>>) -> (n: usize)
    ensures
        n == archive_entries(*a).len(),
{
    a.len()
}

/// Relies on zip's `ZipArchive::by_index_decrypt` with an empty password and
/// the `Read` impl of its `ZipFile`: hands out entry `i`'s name and
/// decompressed contents (empty for a directory entry). A corrupt, encrypted
/// or unsupported entry is an error, never a panic — `by_index` itself is
/// avoided, since it unwraps the password layer and aborts on an entry that
/// carries an AES marker without the encryption flag. Reading moves the
/// cursor but never changes what the archive holds or which entries read.
#[verifier::external_body]
fn read_entry(a: &mut zip::ZipArchive<std::io::Cursor<Vec<u8>>>, i: usize) -> (r: Result<
    ZipEntry,
    UpdateError,
>)
    requires
        i < archive_entries(*old(a)).len(),
    ensures
        archive_entries(*final(a)) == archive_entries(*old(a)),
        forall|j: int| entry_readable(*final(a), j) == entry_readable(*old(a), j),
        r is Ok <==> entry_readable(*old(a), i as int),
        (match r {
            Ok(e) => e@ == archive_entries(*old(a))[i as int],
            Err(e) => e == UpdateError::ExtractError,
        }),
{
    let mut f = match a.by_index_decrypt(i, b"") {
        Ok(Ok(f)) => f,
        _ => return Err(UpdateError::ExtractError),
    };
    let name = f.name().to_string();
    let mut data: Vec<u8> = Vec::new();
    if std::io::Read::read_to_end(&mut f, &mut data).is_err() {
        return Err(UpdateError::ExtractError);
    }
    Ok(ZipEntry { name, data })
}

/// Reads every entry of a ZIP archive given as bytes. Succeeds exactly on a
/// readable container — one that decodes and whose every entry reads — and
/// fails with `ExtractError` on any other input.
pub fn read_archive_entries(bytes: &Vec<u8>) -> (r: Result<Vec<ZipEntry>, UpdateError>)
    ensures
        (match r {
            Ok(v) => v.deep_view() == zip_entries_of(bytes@) && zip_readable(bytes@),
            Err(e) => e == UpdateError::ExtractError && !zip_readable(bytes@),
        }),
{
    let mut a = match open_archive(bytes) {
        Ok(a) => a,
        Err(e) => return Err(e),
    };
    let n = archive_len(&a);
    let mut out: Vec<ZipEntry> = Vec::new();
    let mut i: usize = 0;
    proof {
        assert(out.deep_view() =~= zip_entries_of(bytes@).take(0));
    }
    while i < n
        invariant
            archive_entries(a) == zip_entries_of(bytes@),
            n == zip_entries_of(bytes@).len(),
            i <= n,
            out.deep_view() == zip_entries_of(bytes@).take(i as int),
            zip_readable(bytes@) <==> (forall|t: int| 0 <= t < n ==> entry_readable(a, t)),
            forall|j: int| 0 <= j < i ==> entry_readable(a, j),
        decreases n - i,
    {
        let ghost a_prev = a;
        match read_entry(&mut a, i) {
            Ok(e) => {
                out.push(e);
                proof {
                    assert(zip_entries_of(bytes@).take(i + 1).drop_last() =~= zip_entries_of(
                        bytes@,
                    ).take(i as int));
                    assert(zip_entries_of(bytes@).take(i + 1).last() == zip_entries_of(bytes@)[
                        i as int]);
                    assert(out.deep_view() =~~= zip_entries_of(bytes@).take(i + 1));
                    assert forall|t: int| entry_readable(a, t) == entry_readable(a_prev, t) by {}
                    assert(zip_readable(bytes@) <==> (forall|t: int|
                        0 <= t < n ==> entry_readable(a, t)));
                }
            },
            Err(e) => {
                proof {
                    assert(!entry_readable(a_prev, i as int));
                    assert(!zip_readable(bytes@));
                }
                return Err(e);
            },
        }
        i += 1;
    }
    proof {
        assert forall|t: int| 0 <= t < n implies entry_readable(a, t) by {}
        assert(zip_readable(bytes@));
    }
    proof {
        assert(zip_entries_of(bytes@).take(n as int) =~= zip_entries_of(bytes@));
    }
    Ok(out)
}

/// One planned extraction step under the destination directory.
pub enum ExtractAction {
    MakeDir { path: Vec<String> },
    WriteFile { path: Vec<String>, data: Vec<u8> },
}

/// The model of one planned extraction step.
pub enum ExtractActionView {
    MakeDir { path: Seq<Seq<char>> },
    WriteFile { path: Seq<Seq<char>>, data: Seq<u8> },
}

impl View for ExtractAction {
    type V = ExtractActionView;

    open spec fn view(&self) -> ExtractActionView {
        match self {
            ExtractAction::MakeDir { path } => (ExtractActionView::MakeDir {
                path: path.deep_view(),
            }),
            ExtractAction::WriteFile { path, data } => (ExtractActionView::WriteFile {
                path: path.deep_view(),
                data: data@,
            }),
        }
    }
}

impl DeepView for ExtractAction {
    type V = ExtractActionView;

    open spec fn deep_view(&self) -> ExtractActionView {
        self@
    }
}

/// The relative path an action works at.
pub open spec fn action_path(a: ExtractActionView) -> Seq<Seq<char>> {
    match a {
        ExtractActionView::MakeDir { path } => path,
        ExtractActionView::WriteFile { path, .. } => path,
    }
}

/// A path that stays under the destination: nonempty, with every component a
/// real, safe step.
pub open spec fn path_is_safe(p: Seq<Seq<char>>) -> bool {
    p.len() > 0 && forall|i: int| 0 <= i < p.len() ==> component_safe(#[trigger] p[i]) && keeps(
        p[i],
    )
}

/// The action planned for one archive entry: a directory when its name ends
/// in a slash, a file write otherwise; an entry whose name does not sanitize
/// is skipped.
pub open spec fn entry_action(name: Seq<char>, data: Seq<u8>) -> Option<ExtractActionView> {
    match sanitize_spec(name) {
        None => None,
        Some(p) => Some(
            if is_suffix(name, "/"@) {
                ExtractActionView::MakeDir { path: p }
            } else {
                ExtractActionView::WriteFile { path: p, data }
            },
        ),
    }
}

/// The extraction plan for a list of entries, in order.
pub open spec fn plan_spec(es: Seq<(Seq<char>, Seq<u8>)>) -> Seq<ExtractActionView>
    decreases es.len(),
{
    if es.len() == 0 {
        Seq::empty()
    } else {
        let pre = plan_spec(es.drop_last());
        match entry_action(es.last().0, es.last().1) {
            Some(a) => pre.push(a),
            None => pre,
        }
    }
}

/// Plans the extraction of the given entries: sanitizes every entry name,
/// skips the entries that would escape the destination, and keeps the order.
pub fn plan_extraction(entries: &Vec<ZipEntry>) -> (r: Vec<ExtractAction>)
    ensures
        r.deep_view() == plan_spec(entries.deep_view()),
{
    let mut out: Vec<ExtractAction> = Vec::new();
    let mut i: usize = 0;
    proof {
        assert(out.deep_view() =~= plan_spec(entries.deep_view().take(0)));
    }
    while i < entries.len()
        invariant
            i <= entries.len(),
            entries.deep_view().len() == entries.len(),
            out.deep_view() == plan_spec(entries.deep_view().take(i as int)),
        decreases entries.len() - i,
    {
        proof {
            assert(entries.deep_view().take(i + 1).drop_last() =~= entries.deep_view().take(
                i as int,
            ));
            assert(entries.deep_view().take(i + 1).last() == entries.deep_view()[i as int]);
        }
        let e = &entries[i];
        match sanitize_entry_name(e.name.as_str()) {
            Some(p) => {
                if str_ends_with(e.name.as_str(), "/") {
                    out.push(ExtractAction::MakeDir { path: p });
                } else {
                    out.push(ExtractAction::WriteFile { path: p, data: e.data.clone() });
                }
                proof {
                    assert(out.deep_view() =~= plan_spec(entries.deep_view().take(i + 1)));
                }
            },
            None => {
                proof {
                    assert(out.deep_view() =~= plan_spec(entries.deep_view().take(i + 1)));
                }
            },
        }
        i += 1;
    }
    proof {
        assert(entries.deep_view().take(entries.len() as int) =~= entries.deep_view());
    }
    out
}

/// The kept components all come from the raw ones and name real steps.
proof fn lemma_kept_of_elems(cs: Seq<Seq<char>>)
    ensures
        forall|i: int| 0 <= i < crate::paths::kept_of(cs).len() ==> keeps(
            #[trigger] crate::paths::kept_of(cs)[i],
        ) && cs.contains(crate::paths::kept_of(cs)[i]),
    decreases cs.len(),
{
    if cs.len() > 0 {
        lemma_kept_of_elems(cs.drop_last());
        assert forall|i: int| 0 <= i < crate::paths::kept_of(cs).len() implies keeps(
            #[trigger] crate::paths::kept_of(cs)[i],
        ) && cs.contains(crate::paths::kept_of(cs)[i]) by {
            let pre = crate::paths::kept_of(cs.drop_last());
            if i < pre.len() {
                assert(cs.drop_last().contains(pre[i]));
                let j = choose|j: int| 0 <= j < cs.drop_last().len() && cs.drop_last()[j] == pre[i];
                assert(cs[j] == pre[i]);
            } else {
                assert(cs[cs.len() - 1] == cs.last());
            }
        }
    }
}

/// Law: a sanitized entry path is safe — nonempty, relative, and free of
/// parent-directory or drive-letter steps.
pub proof fn lemma_sanitize_safe(name: Seq<char>, p: Seq<Seq<char>>)
    requires
        sanitize_spec(name) == Some(p),
    ensures
        path_is_safe(p),
{
    lemma_kept_of_elems(crate::paths::raw_components(name));
    assert forall|i: int| 0 <= i < p.len() implies component_safe(#[trigger] p[i]) && keeps(
        p[i],
    ) by {
        assert(crate::paths::raw_components(name).contains(p[i]));
        let j = choose|j: int|
            0 <= j < crate::paths::raw_components(name).len() && crate::paths::raw_components(
                name,
            )[j] == p[i];
        assert(component_safe(crate::paths::raw_components(name)[j]));
    }
}

/// Law: no planned action ever reaches outside the destination — every
/// action's path is nonempty, relative, and never climbs to a parent.
pub proof fn lemma_plan_safe(es: Seq<(Seq<char>, Seq<u8>)>)
    ensures
        forall|i: int| 0 <= i < plan_spec(es).len() ==> path_is_safe(
            action_path(#[trigger] plan_spec(es)[i]),
        ),
    decreases es.len(),
{
    if es.len() > 0 {
        lemma_plan_safe(es.drop_last());
        assert forall|i: int| 0 <= i < plan_spec(es).len() implies path_is_safe(
            action_path(#[trigger] plan_spec(es)[i]),
        ) by {
            let pre = plan_spec(es.drop_last());
            if i >= pre.len() {
                match entry_action(es.last().0, es.last().1) {
                    Some(a) => {
                        let p = match sanitize_spec(es.last().0) {
                            Some(p) => p,
                            None => Seq::empty(),
                        };
                        lemma_sanitize_safe(es.last().0, p);
                    },
                    None => {},
                }
            }
        }
    }
}

/// The names among `names` that end with the sector-file extension.
pub open spec fn sct_of(names: Seq<Seq<char>>) -> Seq<Seq<char>>
    decreases names.len(),
{
    if names.len() == 0 {
        Seq::empty()
    } else {
        let pre = sct_of(names.drop_last());
        if is_suffix(names.last(), ".sct"@) {
            pre.push(names.last())
        } else {
            pre
        }
    }
}

/// Picks the extracted package's sector file out of the top-level file
/// names: exactly one name must end in `.sct`; none or several is a
/// package-shape error.
pub fn sector_file_name(names: &Vec<String>) -> (r: Result<String, UpdateError>)
    ensures
        (match r {
            Ok(n) => sct_of(names.deep_view()).len() == 1 && n@ == sct_of(names.deep_view())[0],
            Err(e) => e == UpdateError::ConfigError && sct_of(names.deep_view()).len() != 1,
        }),
{
    let mut found: Vec<String> = Vec::new();
    let mut i: usize = 0;
    proof {
        assert(found.deep_view() =~= sct_of(names.deep_view().take(0)));
    }
    while i < names.len()
        invariant
            i <= names.len(),
            names.deep_view().len() == names.len(),
            found.deep_view() == sct_of(names.deep_view().take(i as int)),
        decreases names.len() - i,
    {
        proof {
            assert(names.deep_view().take(i + 1).drop_last() =~= names.deep_view().take(i as int));
            assert(names.deep_view().take(i + 1).last() == names.deep_view()[i as int]);
        }
        if str_ends_with(names[i].as_str(), ".sct") {
            let n = names[i].clone();
            found.push(n);
        }
        proof {
            assert(found.deep_view() =~= sct_of(names.deep_view().take(i + 1)));
        }
        i += 1;
    }
    proof {
        assert(names.deep_view().take(names.len() as int) =~= names.deep_view());
    }
    if found.len() == 1 {
        let n = found[0].clone();
        proof {
            assert(n@ == found.deep_view()[0]);
        }
        Ok(n)
    } else {
        Err(UpdateError::ConfigError)
    }
}

} // verus!

//! The list of what goes into an archive: the names of the entries, the
//! files they come from, and the warnings that the names give rise to.

use vstd::prelude::*;
use vstd::string::StrSliceExecFns;
use vstd::string::StringExecFns;
use crate::error::ZipError;
use crate::zip::names::{
    after_last, contains, ends_with_char, has_char, has_prefix, last_index, leading, starts_with,
    trim_leading, trim_trailing, trimmed_len,
};

verus! {

/// One entry to be: its name in the archive, the file it comes from, and
/// whether it is a directory.
#[derive(Debug, Clone, PartialEq, Eq)]
pub struct ZipDataEntry {
    pub key: String,
    pub file: String,
    pub dir: bool,
}

/// What a caller should be told about the names of the entries.
#[derive(Debug, Clone, Copy, PartialEq, Eq, Structural)]
pub enum ZipWarning {
    /// Directories were left out because they are not descended into.
    DirectoriesIgnored,
    /// Slashes at the beginning of names were dropped.
    DroppedLeadingSlash,
    /// Some names begin with `./`.
    DotSlashPaths,
    /// Some names begin with `../`.
    DotDotPaths,
    /// Some names hold a colon.
    ColonPaths,
}

/// The entries to be and the warnings about them.
#[derive(Debug, Clone)]
pub struct ZipData {
    pub entries: Vec<ZipDataEntry>,
    pub warnings: Vec<ZipWarning>,
}

/// `path` with a slash at its end.
pub open spec fn with_dir_suffix(path: Seq<char>) -> Seq<char> {
    if path.len() > 0 && path.last() == '/' {
        path
    } else {
        path.push('/')
    }
}

/// `path` with a slash at its end.
pub fn ensure_dir_suffix(path: &str) -> (r: String)
    ensures
        r@ == with_dir_suffix(path@),
{
    if ends_with_char(path, '/') {
        String::from_str(path)
    } else {
        proof {
            reveal_strlit("/");
            assert("/"@ =~= seq!['/']);
            assert(path@ + seq!['/'] =~= path@.push('/'));
        }
        String::from_str(path).concat("/")
    }
}

/// The last part of a path: of the path without the slashes at its end,
/// what follows the last slash; all of the path where it holds nothing but
/// slashes.
pub open spec fn base_of(path: Seq<char>) -> Seq<char> {
    let trimmed = path.take(trimmed_len(path, '/', path.len() as int));
    if trimmed.len() == 0 {
        path
    } else {
        trimmed.skip(last_index(trimmed, '/', trimmed.len() as int) + 1)
    }
}

/// The last part of a path.
pub fn basename(path: &str) -> (r: String)
    ensures
        r@ == base_of(path@),
{
    let trimmed = trim_trailing(path, '/');
    if trimmed.as_str().unicode_len() == 0 {
        String::from_str(path)
    } else {
        after_last(trimmed.as_str(), '/')
    }
}

/// `file` itself if it begins with a slash, else `file` under `root`.
pub open spec fn resolved(root: Seq<char>, file: Seq<char>) -> Seq<char> {
    if file.len() > 0 && file[0] == '/' {
        file
    } else {
        with_dir_suffix(root) + file
    }
}

/// The path of `file` seen from `root`.
pub fn resolve_path(root: &str, file: &str) -> (r: String)
    ensures
        r@ == resolved(root@, file@),
{
    if file.unicode_len() > 0 && file.get_char(0) == '/' {
        String::from_str(file)
    } else {
        ensure_dir_suffix(root).concat(file)
    }
}

/// The name of what lies at `rel` under the entry named `base`.
pub open spec fn joined(base: Seq<char>, rel: Seq<char>) -> Seq<char> {
    with_dir_suffix(base) + rel
}

/// The name of what lies at `rel` under the entry named `base`.
pub fn join_key(base: &str, rel: &str) -> (r: String)
    ensures
        r@ == joined(base@, rel@),
{
    ensure_dir_suffix(base).concat(rel)
}

/// A name without the slashes at its beginning.
pub open spec fn trimmed(key: Seq<char>) -> Seq<char> {
    key.skip(leading(key, '/', 0))
}

/// The name begins with `./` or `.\`.
pub open spec fn dot_slash(key: Seq<char>) -> bool {
    starts_with(key, seq!['.', '/']) || starts_with(key, seq!['.', '\\'])
}

/// The name begins with `../` or `..\`.
pub open spec fn dot_dot(key: Seq<char>) -> bool {
    starts_with(key, seq!['.', '.', '/']) || starts_with(key, seq!['.', '.', '\\'])
}

/// `warnings` with `w` added at its end if `wanted` and not yet there.
pub open spec fn noted(warnings: Seq<ZipWarning>, w: ZipWarning, wanted: bool) -> Seq<ZipWarning> {
    if wanted && !warnings.contains(w) {
        warnings.push(w)
    } else {
        warnings
    }
}

/// Adds `w` to `warnings` if `wanted` and not yet there.
fn note(warnings: &mut Vec<ZipWarning>, w: ZipWarning, wanted: bool)
    ensures
        final(warnings)@ == noted(old(warnings)@, w, wanted),
{
    if !wanted {
        return ;
    }
    let mut i: usize = 0;
    while i < warnings.len()
        invariant
            i <= warnings@.len(),
            warnings@ == old(warnings)@,
            forall|j: int| 0 <= j < i ==> warnings@[j] != w,
        decreases warnings@.len() - i,
    {
        if warnings[i] == w {
            return ;
        }
        i = i + 1;
    }
    warnings.push(w);
}

/// Some name of the first `n` entries begins with a slash.
pub open spec fn any_leading_slash(entries: Seq<ZipDataEntry>, n: int) -> bool {
    exists|i: int| 0 <= i < n && (#[trigger] entries[i]).key@.len() > 0 && entries[i].key@[0] == '/'
}

/// Some name of the first `n` entries, its leading slashes dropped, begins
/// with `./`.
pub open spec fn any_dot_slash(entries: Seq<ZipDataEntry>, n: int) -> bool {
    exists|i: int| 0 <= i < n && dot_slash(trimmed((#[trigger] entries[i]).key@))
}

/// Some name of the first `n` entries, its leading slashes dropped, begins
/// with `../`.
pub open spec fn any_dot_dot(entries: Seq<ZipDataEntry>, n: int) -> bool {
    exists|i: int| 0 <= i < n && dot_dot(trimmed((#[trigger] entries[i]).key@))
}

/// Some name of the first `n` entries holds a colon.
pub open spec fn any_colon(entries: Seq<ZipDataEntry>, n: int) -> bool {
    exists|i: int| 0 <= i < n && trimmed((#[trigger] entries[i]).key@).contains(':')
}

/// The warnings after the names of `entries` were looked at: those before,
/// and after them, each if it applies and is not yet there, the warnings
/// about dropped slashes, `./`, `../` and colons, in this order.
pub open spec fn warned(warnings: Seq<ZipWarning>, entries: Seq<ZipDataEntry>) -> Seq<ZipWarning> {
    let n = entries.len() as int;
    noted(
        noted(
            noted(
                noted(warnings, ZipWarning::DroppedLeadingSlash, any_leading_slash(entries, n)),
                ZipWarning::DotSlashPaths,
                any_dot_slash(entries, n),
            ),
            ZipWarning::DotDotPaths,
            any_dot_dot(entries, n),
        ),
        ZipWarning::ColonPaths,
        any_colon(entries, n),
    )
}

/// Noting a warning leaves a list without repetitions so, and the warning
/// stands in the list after it exactly if it stood there or was wanted.
pub proof fn lemma_noted(warnings: Seq<ZipWarning>, w: ZipWarning, wanted: bool)
    ensures
        warnings.no_duplicates() ==> noted(warnings, w, wanted).no_duplicates(),
        forall|v: ZipWarning|
            #[trigger] noted(warnings, w, wanted).contains(v) <==> warnings.contains(v) || (wanted
                && v == w),
{
    let after = noted(warnings, w, wanted);
    assert forall|v: ZipWarning| #[trigger] after.contains(v) <==> warnings.contains(v) || (wanted
        && v == w) by {
        if wanted && !warnings.contains(w) {
            assert(after == warnings.push(w));
            if warnings.contains(v) {
                let i = choose|i: int| 0 <= i < warnings.len() && warnings[i] == v;
                assert(after[i] == v);
            }
            if v == w {
                assert(after[warnings.len() as int] == w);
            }
            if after.contains(v) {
                let i = choose|i: int| 0 <= i < after.len() && after[i] == v;
                if i < warnings.len() {
                    assert(warnings[i] == v);
                }
            }
        }
    }
    if warnings.no_duplicates() && wanted && !warnings.contains(w) {
        assert forall|i: int, j: int| 0 <= i < after.len() && 0 <= j < after.len() && i != j implies after[i]
            != after[j] by {
            if i < warnings.len() {
                assert(warnings.contains(warnings[i]));
            }
            if j < warnings.len() {
                assert(warnings.contains(warnings[j]));
            }
        }
    }
}

/// Each warning is given at most once: where the warnings before held none
/// twice, those after the names were looked at hold none twice. And a
/// warning that was not there before is there afterwards exactly if it
/// applies: the one about colons exactly if a name holds a colon.
pub proof fn lemma_warned_once(warnings: Seq<ZipWarning>, entries: Seq<ZipDataEntry>)
    ensures
        warnings.no_duplicates() ==> warned(warnings, entries).no_duplicates(),
        !warnings.contains(ZipWarning::DroppedLeadingSlash) ==> (warned(warnings, entries).contains(
            ZipWarning::DroppedLeadingSlash,
        ) <==> any_leading_slash(entries, entries.len() as int)),
        !warnings.contains(ZipWarning::DotSlashPaths) ==> (warned(warnings, entries).contains(
            ZipWarning::DotSlashPaths,
        ) <==> any_dot_slash(entries, entries.len() as int)),
        !warnings.contains(ZipWarning::DotDotPaths) ==> (warned(warnings, entries).contains(
            ZipWarning::DotDotPaths,
        ) <==> any_dot_dot(entries, entries.len() as int)),
        !warnings.contains(ZipWarning::ColonPaths) ==> (warned(warnings, entries).contains(
            ZipWarning::ColonPaths,
        ) <==> any_colon(entries, entries.len() as int)),
{
    let n = entries.len() as int;
    let a = noted(warnings, ZipWarning::DroppedLeadingSlash, any_leading_slash(entries, n));
    let b = noted(a, ZipWarning::DotSlashPaths, any_dot_slash(entries, n));
    let c = noted(b, ZipWarning::DotDotPaths, any_dot_dot(entries, n));
    lemma_noted(warnings, ZipWarning::DroppedLeadingSlash, any_leading_slash(entries, n));
    lemma_noted(a, ZipWarning::DotSlashPaths, any_dot_slash(entries, n));
    lemma_noted(b, ZipWarning::DotDotPaths, any_dot_dot(entries, n));
    lemma_noted(c, ZipWarning::ColonPaths, any_colon(entries, n));
}

/// Drops the slashes at the beginning of each name and notes the warnings
/// that the names give rise to.
pub fn apply_key_warnings(entries: &mut Vec<ZipDataEntry>, warnings: &mut Vec<ZipWarning>)
    ensures
        final(entries)@.len() == old(entries)@.len(),
        forall|i: int|
            0 <= i < old(entries)@.len() ==> (#[trigger] final(entries)@[i]).key@ == trimmed(
                old(entries)@[i].key@,
            ) && final(entries)@[i].file@ == old(entries)@[i].file@ && final(entries)@[i].dir
                == old(entries)@[i].dir,
        final(warnings)@ == warned(old(warnings)@, old(entries)@),
{
    let mut dropped: bool = false;
    let mut dot_slash_seen: bool = false;
    let mut dot_dot_seen: bool = false;
    let mut colon: bool = false;
    let mut out: Vec<ZipDataEntry> = Vec::new();
    let mut i: usize = 0;
    proof {
        reveal_strlit("./");
        reveal_strlit(".\\");
        reveal_strlit("../");
        reveal_strlit("..\\");
        assert("./"@ =~= seq!['.', '/']);
        assert(".\\"@ =~= seq!['.', '\\']);
        assert("../"@ =~= seq!['.', '.', '/']);
        assert("..\\"@ =~= seq!['.', '.', '\\']);
    }
    while i < entries.len()
        invariant
            i <= entries@.len(),
            entries@ == old(entries)@,
            out@.len() == i,
            "./"@ == seq!['.', '/'],
            ".\\"@ == seq!['.', '\\'],
            "../"@ == seq!['.', '.', '/'],
            "..\\"@ == seq!['.', '.', '\\'],
            forall|j: int|
                0 <= j < i ==> (#[trigger] out@[j]).key@ == trimmed(entries@[j].key@) && out@[j].file@
                    == entries@[j].file@ && out@[j].dir == entries@[j].dir,
            dropped == any_leading_slash(entries@, i as int),
            dot_slash_seen == any_dot_slash(entries@, i as int),
            dot_dot_seen == any_dot_dot(entries@, i as int),
            colon == any_colon(entries@, i as int),
        decreases entries@.len() - i,
    {
        let entry = &entries[i];
        let cut = trim_leading(entry.key.as_str(), '/');
        let key = cut.0;
        if cut.1 {
            dropped = true;
        }
        if has_prefix(key.as_str(), "./") || has_prefix(key.as_str(), ".\\") {
            dot_slash_seen = true;
        }
        if has_prefix(key.as_str(), "../") || has_prefix(key.as_str(), "..\\") {
            dot_dot_seen = true;
        }
        if has_char(key.as_str(), ':') {
            colon = true;
        }
        out.push(ZipDataEntry { key, file: entry.file.clone(), dir: entry.dir });
        i = i + 1;
    }
    *entries = out;
    note(warnings, ZipWarning::DroppedLeadingSlash, dropped);
    note(warnings, ZipWarning::DotSlashPaths, dot_slash_seen);
    note(warnings, ZipWarning::DotDotPaths, dot_dot_seen);
    note(warnings, ZipWarning::ColonPaths, colon);
}

/// The file of entry `i` is the file of no entry before it.
pub open spec fn first_of_its_file(entries: Seq<ZipDataEntry>, i: int) -> bool {
    forall|j: int| 0 <= j < i ==> (#[trigger] entries[j]).file@ != entries[i].file@
}

/// The entries that are the first of their file, in their order.
pub open spec fn deduped(entries: Seq<ZipDataEntry>, n: int) -> Seq<ZipDataEntry>
    decreases n,
{
    if n <= 0 {
        Seq::empty()
    } else if first_of_its_file(entries, n - 1) {
        deduped(entries, n - 1).push(entries[n - 1])
    } else {
        deduped(entries, n - 1)
    }
}

/// The same entries as plain values.
pub open spec fn plain(entries: Seq<ZipDataEntry>) -> Seq<(Seq<char>, Seq<char>, bool)> {
    Seq::new(entries.len(), |i: int| (entries[i].key@, entries[i].file@, entries[i].dir))
}

/// Keeps of the entries that come from one file the first.
pub fn dedup_by_file(entries: Vec<ZipDataEntry>) -> (r: Result<Vec<ZipDataEntry>, ZipError>)
    ensures
        r.is_ok(),
        plain(r.unwrap()@) == plain(deduped(entries@, entries@.len() as int)),
{
    let mut out: Vec<ZipDataEntry> = Vec::new();
    let mut i: usize = 0;
    proof {
        assert(plain(out@) =~= plain(deduped(entries@, 0)));
    }
    while i < entries.len()
        invariant
            i <= entries@.len(),
            plain(out@) == plain(deduped(entries@, i as int)),
        decreases entries@.len() - i,
    {
        let mut seen: bool = false;
        let mut j: usize = 0;
        while j < i && !seen
            invariant
                j <= i < entries@.len(),
                !seen ==> forall|k: int| 0 <= k < j ==> (#[trigger] entries@[k]).file@
                    != entries@[i as int].file@,
                seen ==> !first_of_its_file(entries@, i as int),
            decreases i - j, if seen { 0int } else { 1int },
        {
            if entries[j].file == entries[i].file {
                seen = true;
            } else {
                j = j + 1;
            }
        }
        if !seen {
            let ghost before = out@;
            out.push(
                ZipDataEntry {
                    key: entries[i].key.clone(),
                    file: entries[i].file.clone(),
                    dir: entries[i].dir,
                },
            );
            proof {
                assert(plain(out@) =~= plain(before).push(
                    (entries@[i as int].key@, entries@[i as int].file@, entries@[i as int].dir),
                ));
                assert(plain(deduped(entries@, i + 1)) =~= plain(deduped(entries@, i as int)).push(
                    (entries@[i as int].key@, entries@[i as int].file@, entries@[i as int].dir),
                ));
            }
        }
        i = i + 1;
    }
    Ok(out)
}

/// The entries that are kept: all of them, or those that are no
/// directories.
pub open spec fn kept(entries: Seq<ZipDataEntry>, include_directories: bool, n: int) -> Seq<
    ZipDataEntry,
>
    decreases n,
{
    if n <= 0 {
        Seq::empty()
    } else if include_directories || !entries[n - 1].dir {
        kept(entries, include_directories, n - 1).push(entries[n - 1])
    } else {
        kept(entries, include_directories, n - 1)
    }
}

/// Makes the list of what goes into an archive from the entries that a
/// scan of the files gave and the warnings of the scan: directories are
/// left out unless they are to be included, slashes at the beginning of
/// names are dropped, and the warnings about the names are added.
pub fn get_zip_data(
    scanned: Vec<ZipDataEntry>,
    include_directories: bool,
    warnings: Vec<ZipWarning>,
) -> (r: Result<ZipData, ZipError>)
    ensures
        r.is_ok(),
        ({
            let chosen = kept(scanned@, include_directories, scanned@.len() as int);
            &&& r.unwrap().entries@.len() == chosen.len()
            &&& forall|i: int|
                0 <= i < chosen.len() ==> (#[trigger] r.unwrap().entries@[i]).key@ == trimmed(
                    chosen[i].key@,
                ) && r.unwrap().entries@[i].file@ == chosen[i].file@ && r.unwrap().entries@[i].dir
                    == chosen[i].dir
            &&& r.unwrap().warnings@ == warned(warnings@, chosen)
        }),
{
    let mut entries: Vec<ZipDataEntry> = Vec::new();
    let mut i: usize = 0;
    while i < scanned.len()
        invariant
            i <= scanned@.len(),
            entries@.len() == kept(scanned@, include_directories, i as int).len(),
            forall|j: int|
                0 <= j < entries@.len() ==> (#[trigger] entries@[j]).key@ == kept(
                    scanned@,
                    include_directories,
                    i as int,
                )[j].key@ && entries@[j].file@ == kept(scanned@, include_directories, i as int)[j].file@
                    && entries@[j].dir == kept(scanned@, include_directories, i as int)[j].dir,
        decreases scanned@.len() - i,
    {
        if include_directories || !scanned[i].dir {
            entries.push(
                ZipDataEntry {
                    key: scanned[i].key.clone(),
                    file: scanned[i].file.clone(),
                    dir: scanned[i].dir,
                },
            );
        }
        i = i + 1;
    }
    let mut warnings = warnings;
    let ghost chosen = kept(scanned@, include_directories, scanned@.len() as int);
    let ghost before = entries@;
    apply_key_warnings(&mut entries, &mut warnings);
    proof {
        lemma_warned_same(warnings@, before, chosen);
    }
    Ok(ZipData { entries, warnings })
}

/// The warnings depend on the names only.
pub proof fn lemma_warned_same(
    warnings: Seq<ZipWarning>,
    a: Seq<ZipDataEntry>,
    b: Seq<ZipDataEntry>,
)
    requires
        a.len() == b.len(),
        forall|i: int| 0 <= i < a.len() ==> (#[trigger] a[i]).key@ == b[i].key@,
    ensures
        forall|w: Seq<ZipWarning>| warned(w, a) == warned(w, b),
{
    let n = a.len() as int;
    assert(any_leading_slash(a, n) == any_leading_slash(b, n)) by {
        if any_leading_slash(a, n) {
            let i = choose|i: int| 0 <= i < n && (#[trigger] a[i]).key@.len() > 0 && a[i].key@[0] == '/';
            assert(b[i].key@ == a[i].key@);
        }
        if any_leading_slash(b, n) {
            let i = choose|i: int| 0 <= i < n && (#[trigger] b[i]).key@.len() > 0 && b[i].key@[0] == '/';
            assert(b[i].key@ == a[i].key@);
        }
    }
    assert(any_dot_slash(a, n) == any_dot_slash(b, n)) by {
        if any_dot_slash(a, n) {
            let i = choose|i: int| 0 <= i < n && dot_slash(trimmed((#[trigger] a[i]).key@));
            assert(b[i].key@ == a[i].key@);
        }
        if any_dot_slash(b, n) {
            let i = choose|i: int| 0 <= i < n && dot_slash(trimmed((#[trigger] b[i]).key@));
            assert(b[i].key@ == a[i].key@);
        }
    }
    assert(any_dot_dot(a, n) == any_dot_dot(b, n)) by {
        if any_dot_dot(a, n) {
            let i = choose|i: int| 0 <= i < n && dot_dot(trimmed((#[trigger] a[i]).key@));
            assert(b[i].key@ == a[i].key@);
        }
        if any_dot_dot(b, n) {
            let i = choose|i: int| 0 <= i < n && dot_dot(trimmed((#[trigger] b[i]).key@));
            assert(b[i].key@ == a[i].key@);
        }
    }
    assert(any_colon(a, n) == any_colon(b, n)) by {
        if any_colon(a, n) {
            let i = choose|i: int| 0 <= i < n && trimmed((#[trigger] a[i]).key@).contains(':');
            assert(b[i].key@ == a[i].key@);
        }
        if any_colon(b, n) {
            let i = choose|i: int| 0 <= i < n && trimmed((#[trigger] b[i]).key@).contains(':');
            assert(b[i].key@ == a[i].key@);
        }
    }
}

} // verus!
